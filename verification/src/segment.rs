use std::collections::VecDeque;
use vstd::arithmetic::div_mod::{
    lemma_fundamental_div_mod, lemma_fundamental_div_mod_converse, lemma_mod_bound,
};
use vstd::prelude::*;

use crate::raster::RgbImage;

verus! {

broadcast use vstd::std_specs::vecdeque::group_vec_dequeue_axioms;

/// Absolute difference of two channel values.
pub open spec fn channel_diff(a: u8, b: u8) -> int {
    if a >= b {
        a - b
    } else {
        b - a
    }
}

/// Manhattan distance between two RGB colours.
pub open spec fn color_dist_spec(a: [u8; 3], b: [u8; 3]) -> int {
    channel_diff(a[0], b[0]) + channel_diff(a[1], b[1]) + channel_diff(a[2], b[2])
}

fn abs_diff(a: u8, b: u8) -> (d: u32)
    ensures
        d == channel_diff(a, b),
{
    if a >= b {
        (a - b) as u32
    } else {
        (b - a) as u32
    }
}

/// Sum of the absolute per-channel differences of two colours.
pub fn color_dist(a: [u8; 3], b: [u8; 3]) -> (d: u32)
    ensures
        d == color_dist_spec(a, b),
        d <= 765,
{
    abs_diff(a[0], b[0]) + abs_diff(a[1], b[1]) + abs_diff(a[2], b[2])
}

// ---------------------------------------------------------------------------
// Grid geometry
// ---------------------------------------------------------------------------
/// Index of the neighbour of pixel `a` on a row-major `w`-by-`h` grid in
/// direction `d` (0 left, 1 right, 2 up, 3 down), or -1 when it lies outside.
pub open spec fn step(w: int, h: int, a: int, d: int) -> int {
    let x = a % w;
    let y = a / w;
    if d == 0 {
        if x > 0 { a - 1 } else { -1 }
    } else if d == 1 {
        if x + 1 < w { a + 1 } else { -1 }
    } else if d == 2 {
        if y > 0 { a - w } else { -1 }
    } else {
        if y + 1 < h { a + w } else { -1 }
    }
}

/// `b` is one of the four neighbours of `a`.
pub open spec fn adjacent(w: int, h: int, a: int, b: int) -> bool {
    b >= 0 && (step(w, h, a, 0) == b || step(w, h, a, 1) == b || step(w, h, a, 2) == b || step(
        w,
        h,
        a,
        3,
    ) == b)
}

/// Distance between two integers.
pub open spec fn gap(u: int, v: int) -> int {
    if u >= v {
        u - v
    } else {
        v - u
    }
}

/// Pixel `b` is on the `w`-by-`h` grid and shares a side with pixel `a`:
/// their columns and rows differ by one in exactly one coordinate.
pub open spec fn touches(w: int, h: int, a: int, b: int) -> bool {
    &&& 0 <= b < w * h
    &&& gap(a % w, b % w) + gap(a / w, b / w) == 1
}

/// Column and row of `q * w + r`.
proof fn lemma_coords_of(w: int, b: int, q: int, r: int)
    requires
        w > 0,
        0 <= r < w,
        b == q * w + r,
    ensures
        b / w == q,
        b % w == r,
{
    lemma_fundamental_div_mod_converse(b, w, q, r);
}

/// The four neighbours of a pixel are exactly the pixels of the grid that
/// share a side with it: a pixel in column 0 has no left neighbour, one in
/// the last column no right neighbour, and likewise for the top and bottom
/// rows.
pub proof fn lemma_adjacent_is_grid_neighbour(w: int, h: int, a: int, b: int)
    requires
        w > 0,
        0 <= a < w * h,
    ensures
        adjacent(w, h, a, b) <==> touches(w, h, a, b),
{
    lemma_grid_coords(w, h, a);
    let x = a % w;
    let y = a / w;
    if adjacent(w, h, a, b) {
        if step(w, h, a, 0) == b {
            lemma_coords_of(w, b, y, x - 1);
        } else if step(w, h, a, 1) == b {
            lemma_coords_of(w, b, y, x + 1);
        } else if step(w, h, a, 2) == b {
            assert(b == (y - 1) * w + x) by (nonlinear_arith)
                requires
                    b == a - w,
                    a == y * w + x,
            ;
            lemma_coords_of(w, b, y - 1, x);
        } else {
            assert(b == (y + 1) * w + x) by (nonlinear_arith)
                requires
                    b == a + w,
                    a == y * w + x,
            ;
            lemma_coords_of(w, b, y + 1, x);
        }
    }
    if touches(w, h, a, b) {
        lemma_grid_coords(w, h, b);
        let bx = b % w;
        let by = b / w;
        if by == y {
            if bx == x - 1 {
                assert(step(w, h, a, 0) == b);
            } else {
                assert(step(w, h, a, 1) == b);
            }
        } else if by == y - 1 {
            assert(b == a - w) by (nonlinear_arith)
                requires
                    b == by * w + bx,
                    a == y * w + x,
                    by == y - 1,
                    bx == x,
            ;
            assert(step(w, h, a, 2) == b);
        } else {
            assert(b == a + w) by (nonlinear_arith)
                requires
                    b == by * w + bx,
                    a == y * w + x,
                    by == y + 1,
                    bx == x,
            ;
            assert(step(w, h, a, 3) == b);
        }
    }
}

/// Being neighbours is symmetric.
pub proof fn lemma_adjacent_symmetric(w: int, h: int, a: int, b: int)
    requires
        w > 0,
        0 <= a < w * h,
        0 <= b < w * h,
    ensures
        adjacent(w, h, a, b) <==> adjacent(w, h, b, a),
{
    lemma_adjacent_is_grid_neighbour(w, h, a, b);
    lemma_adjacent_is_grid_neighbour(w, h, b, a);
}

proof fn lemma_grid_coords(w: int, h: int, a: int)
    requires
        w > 0,
        0 <= a < w * h,
    ensures
        a == (a / w) * w + a % w,
        0 <= a % w < w,
        0 <= a / w < h,
        a % w + 1 < w ==> a + 1 < w * h,
        a / w + 1 < h ==> a + w < w * h,
        a / w > 0 ==> a >= w,
{
    lemma_fundamental_div_mod(a, w);
    lemma_mod_bound(a, w);
    let x = a % w;
    let y = a / w;
    assert(a == y * w + x) by (nonlinear_arith)
        requires
            a == w * y + x,
    ;
    assert(0 <= y < h) by (nonlinear_arith)
        requires
            a == y * w + x,
            0 <= x < w,
            0 <= a < w * h,
    ;
    assert(x + 1 < w ==> a + 1 < w * h) by (nonlinear_arith)
        requires
            a == y * w + x,
            0 <= x < w,
            y < h,
    ;
    assert(y + 1 < h ==> a + w < w * h) by (nonlinear_arith)
        requires
            a == y * w + x,
            0 <= x < w,
            0 <= y,
    ;
    assert(y > 0 ==> a >= w) by (nonlinear_arith)
        requires
            a == y * w + x,
            0 <= x,
            w > 0,
    ;
}

/// The neighbour of pixel `idx` in direction `d`, if it lies on the grid.
fn neighbor(w: usize, h: usize, idx: usize, d: usize) -> (r: Option<usize>)
    requires
        w > 0,
        idx < w * h,
        w * h <= usize::MAX,
        d < 4,
    ensures
        match r {
            Some(b) => b == step(w as int, h as int, idx as int, d as int) && b < w * h,
            None => step(w as int, h as int, idx as int, d as int) == -1,
        },
{
    proof {
        lemma_grid_coords(w as int, h as int, idx as int);
    }
    let px = idx % w;
    let py = idx / w;
    if d == 0 {
        if px > 0 {
            Some(idx - 1)
        } else {
            None
        }
    } else if d == 1 {
        if px + 1 < w {
            Some(idx + 1)
        } else {
            None
        }
    } else if d == 2 {
        if py > 0 {
            Some(idx - w)
        } else {
            None
        }
    } else {
        if py + 1 < h {
            Some(idx + w)
        } else {
            None
        }
    }
}

// ---------------------------------------------------------------------------
// Flood-fill specification
// ---------------------------------------------------------------------------
/// Pixel `q` may join the region grown from `seed`: it is on the grid, still
/// unlabelled in `lab`, and within `tol` of the seed colour.
pub open spec fn fill_ok(pix: Seq<[u8; 3]>, tol: int, lab: Seq<int>, seed: int, q: int) -> bool {
    &&& 0 <= q < lab.len()
    &&& lab[q] == -1
    &&& color_dist_spec(pix[seed], pix[q]) <= tol
}

/// Consecutive entries `i` and `i + 1` of `path` are neighbours.
pub open spec fn link(w: int, h: int, path: Seq<int>, i: int) -> bool {
    adjacent(w, h, path[i], path[i + 1])
}

/// `path` starts at `seed`, moves between neighbours, and every later pixel
/// may join the seed's region.
pub open spec fn is_fill_path(
    w: int,
    h: int,
    pix: Seq<[u8; 3]>,
    tol: int,
    lab: Seq<int>,
    seed: int,
    path: Seq<int>,
) -> bool {
    &&& path.len() >= 1
    &&& path[0] == seed
    &&& forall|i: int| 0 <= i < path.len() - 1 ==> #[trigger] link(w, h, path, i)
    &&& forall|i: int| 0 < i < path.len() ==> #[trigger] fill_ok(pix, tol, lab, seed, path[i])
}

/// Pixel `p` is reached by growing a region from `seed` over unlabelled pixels of `lab`.
pub open spec fn fill_reaches(
    w: int,
    h: int,
    pix: Seq<[u8; 3]>,
    tol: int,
    lab: Seq<int>,
    seed: int,
    p: int,
) -> bool {
    exists|path: Seq<int>| #[trigger] is_fill_path(w, h, pix, tol, lab, seed, path) && path.last() == p
}

/// `lab` with the region grown from `seed` labelled `l`.
pub open spec fn fill_region(
    w: int,
    h: int,
    pix: Seq<[u8; 3]>,
    tol: int,
    lab: Seq<int>,
    seed: int,
    l: int,
) -> Seq<int> {
    Seq::new(lab.len(), |p: int| if fill_reaches(w, h, pix, tol, lab, seed, p) { l } else { lab[p] })
}

/// Raster-order flood fill from pixel `s` on: every pixel still unlabelled
/// when it is visited seeds a new region with the next free label.
/// Returns the labelling and the number of labels used.
pub open spec fn flood(
    w: int,
    h: int,
    pix: Seq<[u8; 3]>,
    tol: int,
    lab: Seq<int>,
    s: int,
    next: int,
) -> (Seq<int>, int)
    decreases lab.len() - s,
{
    if s < 0 || s >= lab.len() {
        (lab, next)
    } else if lab[s] != -1 {
        flood(w, h, pix, tol, lab, s + 1, next)
    } else {
        flood(w, h, pix, tol, fill_region(w, h, pix, tol, lab, s, next), s + 1, next + 1)
    }
}

pub open spec fn lab_int(s: Seq<i32>) -> Seq<int> {
    Seq::new(s.len(), |i: int| s[i] as int)
}

// ---------------------------------------------------------------------------
// Breadth-first fill of one region
// ---------------------------------------------------------------------------
pub open spec fn count_free(s: Seq<i32>) -> nat
    decreases s.len(),
{
    if s.len() == 0 {
        0
    } else {
        count_free(s.drop_last()) + if s.last() == -1 {
            1nat
        } else {
            0nat
        }
    }
}

proof fn lemma_count_free_update(s: Seq<i32>, p: int, v: i32)
    requires
        0 <= p < s.len(),
        s[p] == -1,
        v != -1,
    ensures
        count_free(s.update(p, v)) + 1 == count_free(s),
    decreases s.len(),
{
    let t = s.update(p, v);
    if p == s.len() - 1 {
        assert(t.drop_last() =~= s.drop_last());
    } else {
        assert(t.drop_last() =~= s.drop_last().update(p, v));
        lemma_count_free_update(s.drop_last(), p, v);
    }
}

/// Neighbour `d` of `p` needs no more attention in the region grown from a seed of colour `seed`.
spec fn nb_done(
    w: int,
    h: int,
    pix: Seq<[u8; 3]>,
    tol: int,
    lab: Seq<i32>,
    seed: [u8; 3],
    p: int,
    d: int,
) -> bool {
    let b = step(w, h, p, d);
    b < 0 || lab[b] != -1 || color_dist_spec(seed, pix[b]) > tol
}

spec fn settled(
    w: int,
    h: int,
    pix: Seq<[u8; 3]>,
    tol: int,
    lab: Seq<i32>,
    seed: [u8; 3],
    p: int,
) -> bool {
    &&& nb_done(w, h, pix, tol, lab, seed, p, 0)
    &&& nb_done(w, h, pix, tol, lab, seed, p, 1)
    &&& nb_done(w, h, pix, tol, lab, seed, p, 2)
    &&& nb_done(w, h, pix, tol, lab, seed, p, 3)
}

/// Labels only go from unlabelled to labelled.
spec fn grows(a: Seq<i32>, b: Seq<i32>) -> bool {
    &&& a.len() == b.len()
    &&& forall|p: int| 0 <= p < a.len() && a[p] != -1 ==> #[trigger] b[p] == a[p]
}

/// What stays true while the region of label `lbl` grown from `start` fills.
spec fn fill_inv(
    w: int,
    h: int,
    pix: Seq<[u8; 3]>,
    tol: int,
    l0: Seq<int>,
    start: int,
    lbl: i32,
    lab: Seq<i32>,
    q: Seq<usize>,
) -> bool {
    &&& lab.len() == l0.len()
    &&& forall|p: int|
        0 <= p < lab.len() ==> (#[trigger] lab[p] == l0[p] || (l0[p] == -1 && lab[p] == lbl))
    &&& forall|p: int|
        0 <= p < lab.len() && #[trigger] lab[p] == lbl ==> fill_reaches(
            w,
            h,
            pix,
            tol,
            l0,
            start,
            p,
        )
    &&& forall|i: int| 0 <= i < q.len() ==> #[trigger] q[i] < lab.len() && lab[q[i] as int] == lbl
}

proof fn lemma_settled_grows(
    w: int,
    h: int,
    pix: Seq<[u8; 3]>,
    tol: int,
    a: Seq<i32>,
    b: Seq<i32>,
    seed: [u8; 3],
    p: int,
)
    requires
        grows(a, b),
        settled(w, h, pix, tol, a, seed, p),
        forall|d: int| 0 <= d < 4 ==> step(w, h, p, d) < a.len(),
    ensures
        settled(w, h, pix, tol, b, seed, p),
{
    assert(step(w, h, p, 0) < a.len());
    assert(step(w, h, p, 1) < a.len());
    assert(step(w, h, p, 2) < a.len());
    assert(step(w, h, p, 3) < a.len());
}

proof fn lemma_steps_in_grid(w: int, h: int, p: int)
    requires
        w > 0,
        0 <= p < w * h,
    ensures
        forall|d: int| 0 <= d < 4 ==> step(w, h, p, d) < w * h,
{
    lemma_grid_coords(w, h, p);
}

/// Looks at neighbour `d` of `idx` and, when it joins the region, labels and queues it.
fn visit(
    w: usize,
    h: usize,
    pix: &Vec<[u8; 3]>,
    tol: u32,
    seed: [u8; 3],
    labels: &mut Vec<i32>,
    q: &mut VecDeque<usize>,
    lbl: i32,
    idx: usize,
    d: usize,
    Ghost(l0): Ghost<Seq<int>>,
    Ghost(start): Ghost<int>,
)
    requires
        w > 0,
        pix.len() == w * h,
        old(labels).len() == pix.len(),
        idx < pix.len(),
        w * h <= usize::MAX,
        d < 4,
        lbl >= 0,
        0 <= start < pix.len(),
        seed == pix@[start],
        old(labels)@[idx as int] == lbl,
        fill_inv(w as int, h as int, pix@, tol as int, l0, start, lbl, old(labels)@, old(q)@),
    ensures
        fill_inv(w as int, h as int, pix@, tol as int, l0, start, lbl, final(labels)@, final(q)@),
        grows(old(labels)@, final(labels)@),
        final(q)@.len() >= old(q)@.len(),
        forall|i: int| 0 <= i < old(q)@.len() ==> final(q)@[i] == old(q)@[i],
        forall|p: int|
            0 <= p < old(labels)@.len() && #[trigger] final(labels)@[p] != old(labels)@[p]
                ==> final(q)@.contains(p as usize),
        nb_done(w as int, h as int, pix@, tol as int, final(labels)@, seed, idx as int, d as int),
        final(q)@.len() + 2 * count_free(final(labels)@) <= old(q)@.len() + 2 * count_free(
            old(labels)@,
        ),
{
    match neighbor(w, h, idx, d) {
        None => {},
        Some(b) => {
            if labels[b] == -1 && color_dist(seed, pix[b]) <= tol {
                let ghost lab_before = labels@;
                let ghost q_before = q@;
                proof {
                    let wi = w as int;
                    let hi = h as int;
                    assert(fill_reaches(wi, hi, pix@, tol as int, l0, start, idx as int));
                    let path = choose|path: Seq<int>|
                        #[trigger] is_fill_path(wi, hi, pix@, tol as int, l0, start, path)
                            && path.last() == idx as int;
                    let np = path.push(b as int);
                    assert(lab_before[b as int] == l0[b as int]);
                    assert forall|i: int| 0 <= i < np.len() - 1 implies #[trigger] link(
                        wi,
                        hi,
                        np,
                        i,
                    ) by {
                        if i < path.len() - 1 {
                            assert(link(wi, hi, path, i));
                        }
                    }
                    assert forall|i: int| 0 < i < np.len() implies #[trigger] fill_ok(
                        pix@,
                        tol as int,
                        l0,
                        start,
                        np[i],
                    ) by {
                        if i < path.len() {
                            assert(fill_ok(pix@, tol as int, l0, start, path[i]));
                        }
                    }
                    assert(is_fill_path(wi, hi, pix@, tol as int, l0, start, np));
                    assert(fill_reaches(wi, hi, pix@, tol as int, l0, start, b as int));
                    lemma_count_free_update(labels@, b as int, lbl);
                }
                labels.set(b, lbl);
                q.push_back(b);
                proof {
                    assert(q@[q@.len() - 1] == b);
                    assert forall|p: int|
                        0 <= p < labels@.len() && #[trigger] labels@[p] == lbl implies fill_reaches(
                        w as int,
                        h as int,
                        pix@,
                        tol as int,
                        l0,
                        start,
                        p,
                    ) by {
                        if p != b as int {
                            assert(lab_before[p] == lbl);
                        }
                    }
                    assert forall|i: int| 0 <= i < q@.len() implies #[trigger] q@[i] < labels@.len()
                        && labels@[q@[i] as int] == lbl by {
                        if i < q_before.len() {
                            assert(q_before[i] == q@[i]);
                        }
                    }
                }
            }
        },
    }
}

/// Every pixel on a fill path from `start` carries the label of a closed region.
proof fn lemma_path_in_region(
    w: int,
    h: int,
    pix: Seq<[u8; 3]>,
    tol: int,
    l0: Seq<int>,
    start: int,
    lbl: i32,
    lab: Seq<i32>,
    path: Seq<int>,
    i: int,
)
    requires
        lbl >= 0,
        0 <= start < lab.len(),
        lab[start] == lbl,
        is_fill_path(w, h, pix, tol, l0, start, path),
        0 <= i < path.len(),
        fill_inv(w, h, pix, tol, l0, start, lbl, lab, Seq::empty()),
        forall|p: int|
            0 <= p < lab.len() && #[trigger] lab[p] == lbl ==> settled(
                w,
                h,
                pix,
                tol,
                lab,
                pix[start],
                p,
            ),
    ensures
        0 <= path[i] < lab.len(),
        lab[path[i]] == lbl,
    decreases i,
{
    if i > 0 {
        lemma_path_in_region(w, h, pix, tol, l0, start, lbl, lab, path, i - 1);
        assert(link(w, h, path, i - 1));
        assert(fill_ok(pix, tol, l0, start, path[i]));
        let a = path[i - 1];
        assert(settled(w, h, pix, tol, lab, pix[start], a));
        assert(lab[path[i]] == l0[path[i]] || lab[path[i]] == lbl);
    }
}

/// Labels with `lbl` exactly the region grown from `start`, breadth first.
fn fill_one(
    w: usize,
    h: usize,
    pix: &Vec<[u8; 3]>,
    tol: u32,
    labels: &mut Vec<i32>,
    start: usize,
    lbl: i32,
)
    requires
        w > 0,
        pix.len() == w * h,
        old(labels).len() == pix.len(),
        start < pix.len(),
        lbl >= 0,
        old(labels)@[start as int] == -1,
        forall|p: int| 0 <= p < old(labels).len() ==> #[trigger] old(labels)@[p] < lbl,
    ensures
        lab_int(final(labels)@) == fill_region(
            w as int,
            h as int,
            pix@,
            tol as int,
            lab_int(old(labels)@),
            start as int,
            lbl as int,
        ),
{
    let ghost l0 = lab_int(labels@);
    let ghost wi = w as int;
    let ghost hi = h as int;
    let ghost ti = tol as int;
    let seed = pix[start];
    proof {
        lemma_count_free_update(labels@, start as int, lbl);
        let path = seq![start as int];
        assert(is_fill_path(wi, hi, pix@, ti, l0, start as int, path));
        assert(path.last() == start as int);
    }
    labels.set(start, lbl);
    let mut q: VecDeque<usize> = VecDeque::new();
    q.push_back(start);
    proof {
        assert(q@[0] == start);
        assert forall|p: int|
            0 <= p < labels@.len() && #[trigger] labels@[p] == lbl implies fill_reaches(
            wi,
            hi,
            pix@,
            ti,
            l0,
            start as int,
            p,
        ) by {
            if p != start as int {
                assert(l0[p] < lbl);
            }
            else {
                let path = seq![start as int];
                assert(is_fill_path(wi, hi, pix@, ti, l0, start as int, path));
            }
        }
    }
    while q.len() > 0
        invariant
            w > 0,
            pix.len() == w * h,
            labels.len() == pix.len(),
            start < pix.len(),
            lbl >= 0,
            seed == pix@[start as int],
            wi == w,
            hi == h,
            ti == tol,
            l0.len() == pix.len(),
            l0[start as int] == -1,
            labels@[start as int] == lbl,
            forall|p: int| 0 <= p < l0.len() ==> #[trigger] l0[p] < lbl,
            fill_inv(wi, hi, pix@, ti, l0, start as int, lbl, labels@, q@),
            forall|p: int|
                0 <= p < labels.len() && #[trigger] labels@[p] == lbl && !q@.contains(p as usize)
                    ==> settled(wi, hi, pix@, ti, labels@, seed, p),
        decreases q@.len() + 2 * count_free(labels@),
    {
        let ghost q_old = q@;
        let ghost lab_old = labels@;
        let idx = q.pop_front().unwrap();
        assert(q_old[0] == idx);
        assert(q@ =~= q_old.drop_first());
        proof {
            assert(fill_inv(wi, hi, pix@, ti, l0, start as int, lbl, labels@, q@)) by {
                assert forall|i: int| 0 <= i < q@.len() implies #[trigger] q@[i] < labels@.len()
                    && labels@[q@[i] as int] == lbl by {
                    assert(q@[i] == q_old[i + 1]);
                }
            }
        }
        let ghost q1 = q@;
        visit(w, h, pix, tol, seed, labels, &mut q, lbl, idx, 0, Ghost(l0), Ghost(start as int));
        let ghost lab1 = labels@;
        let ghost q2 = q@;
        visit(w, h, pix, tol, seed, labels, &mut q, lbl, idx, 1, Ghost(l0), Ghost(start as int));
        let ghost lab2 = labels@;
        let ghost q3 = q@;
        visit(w, h, pix, tol, seed, labels, &mut q, lbl, idx, 2, Ghost(l0), Ghost(start as int));
        let ghost lab3 = labels@;
        let ghost q4 = q@;
        visit(w, h, pix, tol, seed, labels, &mut q, lbl, idx, 3, Ghost(l0), Ghost(start as int));
        proof {
            assert(grows(lab_old, labels@));
            lemma_steps_in_grid(wi, hi, idx as int);
            assert(step(wi, hi, idx as int, 0) < labels.len());
            assert(step(wi, hi, idx as int, 1) < labels.len());
            assert(step(wi, hi, idx as int, 2) < labels.len());
            assert(step(wi, hi, idx as int, 3) < labels.len());
            assert(settled(wi, hi, pix@, ti, labels@, seed, idx as int));
            assert forall|p: int|
                0 <= p < labels.len() && #[trigger] labels@[p] == lbl && !q@.contains(p as usize)
                    implies settled(wi, hi, pix@, ti, labels@, seed, p) by {
                if p != idx as int {
                    if lab_old[p] == lbl {
                        if q_old.contains(p as usize) {
                            let i = choose|i: int| 0 <= i < q_old.len() && q_old[i] == p as usize;
                            assert(i > 0);
                            assert(q1[i - 1] == p as usize);
                            assert(q@[i - 1] == p as usize);
                        }
                        lemma_steps_in_grid(wi, hi, p);
                        lemma_settled_grows(wi, hi, pix@, ti, lab_old, labels@, seed, p);
                    } else {
                        // p was labelled during this step, so it was queued
                        let pu = p as usize;
                        if lab1[p] != lab_old[p] {
                            let i = choose|i: int| 0 <= i < q2.len() && q2[i] == pu;
                            assert(q@[i] == pu);
                        } else if lab2[p] != lab1[p] {
                            let i = choose|i: int| 0 <= i < q3.len() && q3[i] == pu;
                            assert(q@[i] == pu);
                        } else if lab3[p] != lab2[p] {
                            let i = choose|i: int| 0 <= i < q4.len() && q4[i] == pu;
                            assert(q@[i] == pu);
                        } else {
                            assert(labels@[p] != lab3[p]);
                        }
                    }
                }
            }
        }
    }
    proof {
        assert forall|p: int| 0 <= p < labels.len() implies lab_int(labels@)[p] == fill_region(
            wi,
            hi,
            pix@,
            ti,
            l0,
            start as int,
            lbl as int,
        )[p] by {
            if fill_reaches(wi, hi, pix@, ti, l0, start as int, p) {
                let path = choose|path: Seq<int>|
                    #[trigger] is_fill_path(wi, hi, pix@, ti, l0, start as int, path) && path.last()
                        == p;
                lemma_path_in_region(
                    wi,
                    hi,
                    pix@,
                    ti,
                    l0,
                    start as int,
                    lbl,
                    labels@,
                    path,
                    path.len() - 1,
                );
            } else {
                assert(labels@[p] == l0[p] || labels@[p] == lbl);
            }
        }
        assert(lab_int(labels@) =~= fill_region(wi, hi, pix@, ti, l0, start as int, lbl as int));
    }
}


proof fn lemma_fill_region_facts(
    w: int,
    h: int,
    pix: Seq<[u8; 3]>,
    tol: int,
    lab: Seq<int>,
    seed: int,
    l: int,
)
    requires
        0 <= seed < lab.len(),
        lab[seed] == -1,
    ensures
        fill_region(w, h, pix, tol, lab, seed, l).len() == lab.len(),
        fill_region(w, h, pix, tol, lab, seed, l)[seed] == l,
        forall|p: int|
            0 <= p < lab.len() && lab[p] != -1 ==> #[trigger] fill_region(
                w,
                h,
                pix,
                tol,
                lab,
                seed,
                l,
            )[p] == lab[p],
        forall|p: int|
            0 <= p < lab.len() ==> #[trigger] fill_region(w, h, pix, tol, lab, seed, l)[p] == l
                || fill_region(w, h, pix, tol, lab, seed, l)[p] == lab[p],
{
    let path = seq![seed];
    assert(is_fill_path(w, h, pix, tol, lab, seed, path));
    assert forall|p: int|
        0 <= p < lab.len() && lab[p] != -1 implies #[trigger] fill_region(
        w,
        h,
        pix,
        tol,
        lab,
        seed,
        l,
    )[p] == lab[p] by {
        if fill_reaches(w, h, pix, tol, lab, seed, p) {
            let pa = choose|pa: Seq<int>|
                #[trigger] is_fill_path(w, h, pix, tol, lab, seed, pa) && pa.last() == p;
            if pa.len() > 1 {
                assert(fill_ok(pix, tol, lab, seed, pa[pa.len() - 1]));
            }
        }
    }
}

/// The raw labelling of the whole image (before small regions are dropped)
/// and the number of regions it has.
pub open spec fn flood_labels(img: RgbImage, tol: u32) -> (Seq<int>, int) {
    flood(
        img.w() as int,
        img.h() as int,
        img.pix(),
        tol as int,
        Seq::new(img.pix().len(), |i: int| -1int),
        0,
        0,
    )
}

// ---------------------------------------------------------------------------
// Region statistics
// ---------------------------------------------------------------------------
/// Sum of `f(i)` over the pixels `i < k` that carry label `l`.
pub open spec fn label_sum(lab: Seq<int>, l: int, f: spec_fn(int) -> int, k: int) -> int
    decreases k,
{
    if k <= 0 {
        0
    } else {
        label_sum(lab, l, f, k - 1) + if lab[k - 1] == l {
            f(k - 1)
        } else {
            0
        }
    }
}

pub open spec fn one() -> spec_fn(int) -> int {
    |i: int| 1int
}

/// Channel `c` of each pixel.
pub open spec fn channel(pix: Seq<[u8; 3]>, c: int) -> spec_fn(int) -> int {
    |i: int| pix[i][c] as int
}

/// Column of each pixel.
pub open spec fn column(w: int) -> spec_fn(int) -> int {
    |i: int| i % w
}

/// Row of each pixel.
pub open spec fn row(w: int) -> spec_fn(int) -> int {
    |i: int| i / w
}

/// Number of pixels labelled `l`.
pub open spec fn region_size(lab: Seq<int>, l: int) -> int {
    label_sum(lab, l, one(), lab.len() as int)
}

/// Number of labels below `l` whose region has at least `min_px` pixels.
pub open spec fn kept_before(lab: Seq<int>, min_px: int, l: int) -> int
    decreases l,
{
    if l <= 0 {
        0
    } else {
        kept_before(lab, min_px, l - 1) + if region_size(lab, l - 1) >= min_px {
            1int
        } else {
            0int
        }
    }
}

/// The label a pixel of raw label `v` ends up with: regions of at least
/// `min_px` pixels are renumbered consecutively, the others become -1.
pub open spec fn final_label(lab: Seq<int>, min_px: int, v: int) -> int {
    if 0 <= v && region_size(lab, v) >= min_px {
        kept_before(lab, min_px, v)
    } else {
        -1
    }
}

/// Summary of one region that was kept.
#[derive(Clone, Copy, Debug)]
pub struct RegionStats {
    /// 1-based display index.
    pub index: usize,
    pub pixel_count: usize,
    /// Per-channel mean colour, rounded down.
    pub avg_color: [u8; 3],
    /// Sum of the column numbers of the region's pixels.
    pub x_sum: u64,
    /// Sum of the row numbers of the region's pixels.
    pub y_sum: u64,
}

/// `r` summarises the region of raw label `l` of `img`.
pub open spec fn region_matches(img: RgbImage, lab: Seq<int>, min_px: int, l: int, r: RegionStats) -> bool {
    let n = region_size(lab, l);
    let w = img.w() as int;
    &&& r.index == kept_before(lab, min_px, l) + 1
    &&& r.pixel_count == n
    &&& r.avg_color[0] == label_sum(lab, l, channel(img.pix(), 0), lab.len() as int) / n
    &&& r.avg_color[1] == label_sum(lab, l, channel(img.pix(), 1), lab.len() as int) / n
    &&& r.avg_color[2] == label_sum(lab, l, channel(img.pix(), 2), lab.len() as int) / n
    &&& r.x_sum == label_sum(lab, l, column(w), lab.len() as int)
    &&& r.y_sum == label_sum(lab, l, row(w), lab.len() as int)
}

proof fn lemma_label_sum_bound(lab: Seq<int>, l: int, f: spec_fn(int) -> int, k: int, b: int)
    requires
        0 <= k,
        b >= 0,
        forall|i: int| 0 <= i < k ==> 0 <= #[trigger] f(i) <= b,
    ensures
        0 <= label_sum(lab, l, f, k) <= b * k,
    decreases k,
{
    if k > 0 {
        lemma_label_sum_bound(lab, l, f, k - 1, b);
        assert(f(k - 1) <= b);
        assert(b * (k - 1) + b == b * k) by (nonlinear_arith);
    }
}

proof fn lemma_label_sum_pos(lab: Seq<int>, l: int, k: int, p: int)
    requires
        0 <= p < k,
        lab[p] == l,
    ensures
        label_sum(lab, l, one(), k) >= 1,
    decreases k,
{
    lemma_label_sum_bound(lab, l, one(), k - 1, 1);
    if p < k - 1 {
        lemma_label_sum_pos(lab, l, k - 1, p);
    }
}

proof fn lemma_kept_before_bound(lab: Seq<int>, min_px: int, l: int)
    requires
        0 <= l,
    ensures
        0 <= kept_before(lab, min_px, l) <= l,
    decreases l,
{
    if l > 0 {
        lemma_kept_before_bound(lab, min_px, l - 1);
    }
}

fn zeros_usize(k: usize) -> (v: Vec<usize>)
    ensures
        v.len() == k,
        forall|i: int| 0 <= i < k ==> v@[i] == 0,
{
    let mut v: Vec<usize> = Vec::new();
    while v.len() < k
        invariant
            v.len() <= k,
            forall|i: int| 0 <= i < v.len() ==> v@[i] == 0,
        decreases k - v.len(),
    {
        v.push(0);
    }
    v
}

fn zeros_u64(k: usize) -> (v: Vec<u64>)
    ensures
        v.len() == k,
        forall|i: int| 0 <= i < k ==> v@[i] == 0,
{
    let mut v: Vec<u64> = Vec::new();
    while v.len() < k
        invariant
            v.len() <= k,
            forall|i: int| 0 <= i < v.len() ==> v@[i] == 0,
        decreases k - v.len(),
    {
        v.push(0);
    }
    v
}

fn filled_i32(k: usize, x: i32) -> (v: Vec<i32>)
    ensures
        v.len() == k,
        forall|i: int| 0 <= i < k ==> v@[i] == x,
{
    let mut v: Vec<i32> = Vec::new();
    while v.len() < k
        invariant
            v.len() <= k,
            forall|i: int| 0 <= i < v.len() ==> v@[i] == x,
        decreases k - v.len(),
    {
        v.push(x);
    }
    v
}

/// Some pixel carries label `l`.
pub open spec fn label_used(lab: Seq<i32>, l: int) -> bool {
    exists|p: int| 0 <= p < lab.len() && lab[p] == l
}

/// Raster-order flood fill of the whole image; returns the labels and how many were used.
fn flood_all(img: &RgbImage, tol: u32) -> (res: (Vec<i32>, usize))
    requires
        img.w() * img.h() <= i32::MAX,
    ensures
        lab_int(res.0@) == flood_labels(*img, tol).0,
        res.1 == flood_labels(*img, tol).1,
        res.0.len() == img.pix().len(),
        res.1 <= img.pix().len(),
        forall|p: int| 0 <= p < res.0.len() ==> 0 <= #[trigger] res.0@[p] < res.1,
        forall|l: int| 0 <= l < res.1 ==> #[trigger] label_used(res.0@, l),
{
    let w = img.width() as usize;
    let h = img.height() as usize;
    let pix = img.pixels();
    let n = pix.len();
    let ghost wi = w as int;
    let ghost hi = h as int;
    let ghost ti = tol as int;
    let ghost init = Seq::new(n as nat, |i: int| -1int);
    let mut labels = filled_i32(n, -1);
    let mut next: usize = 0;
    assert(lab_int(labels@) =~= init);
    for start in 0..n
        invariant
            n == pix.len(),
            n == w * h,
            n <= i32::MAX,
            pix@ == img.pix(),
            wi == w && hi == h && ti == tol,
            w == img.w() && h == img.h(),
            labels.len() == n,
            next <= start,
            flood(wi, hi, pix@, ti, lab_int(labels@), start as int, next as int) == flood(
                wi,
                hi,
                pix@,
                ti,
                init,
                0,
                0,
            ),
            forall|p: int| 0 <= p < n ==> -1 <= #[trigger] labels@[p] < next,
            forall|p: int| 0 <= p < start ==> #[trigger] labels@[p] != -1,
            forall|l: int| 0 <= l < next ==> #[trigger] label_used(labels@, l),
    {
        if labels[start] == -1 {
            let ghost old_lab = labels@;
            let lbl = next as i32;
            assert(w > 0) by (nonlinear_arith)
                requires
                    start < n,
                    n == w * h,
            ;
            fill_one(w, h, pix, tol, &mut labels, start, lbl);
            proof {
                let li = lab_int(old_lab);
                lemma_fill_region_facts(wi, hi, pix@, ti, li, start as int, next as int);
                let fr = fill_region(wi, hi, pix@, ti, li, start as int, next as int);
                assert(lab_int(labels@) == fr);
                assert forall|p: int| 0 <= p < n implies -1 <= #[trigger] labels@[p] < next + 1 by {
                    assert(lab_int(labels@)[p] == fr[p]);
                }
                assert forall|p: int| 0 <= p < start + 1 implies #[trigger] labels@[p] != -1 by {
                    assert(lab_int(labels@)[p] == fr[p]);
                    if p < start {
                        assert(li[p] != -1);
                    }
                }
                assert forall|l: int| 0 <= l < next + 1 implies #[trigger] label_used(labels@, l) by {
                    if l == next {
                        assert(lab_int(labels@)[start as int] == fr[start as int]);
                        assert(labels@[start as int] == l);
                    } else {
                        assert(label_used(old_lab, l));
                        let p0 = choose|p: int| 0 <= p < old_lab.len() && old_lab[p] == l;
                        assert(li[p0] != -1);
                        assert(lab_int(labels@)[p0] == fr[p0]);
                        assert(labels@[p0] == l);
                    }
                }
            }
            next = next + 1;
        }
    }
    (labels, next)
}


/// Per-label pixel counts, channel sums and coordinate sums of a labelling.
struct LabelTotals {
    counts: Vec<usize>,
    red: Vec<u64>,
    green: Vec<u64>,
    blue: Vec<u64>,
    xs: Vec<u64>,
    ys: Vec<u64>,
}

spec fn totals_upto(t: LabelTotals, lab: Seq<int>, pix: Seq<[u8; 3]>, w: int, k: int, upto: int) -> bool {
    &&& t.counts.len() == k
    &&& t.red.len() == k
    &&& t.green.len() == k
    &&& t.blue.len() == k
    &&& t.xs.len() == k
    &&& t.ys.len() == k
    &&& forall|l: int|
        0 <= l < k ==> {
            &&& #[trigger] t.counts@[l] == label_sum(lab, l, one(), upto)
            &&& t.red@[l] == label_sum(lab, l, channel(pix, 0), upto)
            &&& t.green@[l] == label_sum(lab, l, channel(pix, 1), upto)
            &&& t.blue@[l] == label_sum(lab, l, channel(pix, 2), upto)
            &&& t.xs@[l] == label_sum(lab, l, column(w), upto)
            &&& t.ys@[l] == label_sum(lab, l, row(w), upto)
        }
}

fn totals(w: usize, h: usize, pix: &Vec<[u8; 3]>, labels: &Vec<i32>, k: usize) -> (t: LabelTotals)
    requires
        pix.len() == w * h,
        labels.len() == pix.len(),
        pix.len() <= i32::MAX,
        w <= u32::MAX,
        h <= u32::MAX,
        forall|p: int| 0 <= p < labels.len() ==> 0 <= #[trigger] labels@[p] < k,
    ensures
        totals_upto(t, lab_int(labels@), pix@, w as int, k as int, labels.len() as int),
{
    let n = labels.len();
    let ghost lab = lab_int(labels@);
    let ghost wi = w as int;
    let mut t = LabelTotals {
        counts: zeros_usize(k),
        red: zeros_u64(k),
        green: zeros_u64(k),
        blue: zeros_u64(k),
        xs: zeros_u64(k),
        ys: zeros_u64(k),
    };
    assert(w > 0 || n == 0) by (nonlinear_arith)
        requires
            n == w * h,
    ;
    assert(w * n <= 0x7fff_ffff_0000_0000 && h * n <= 0x7fff_ffff_0000_0000) by (nonlinear_arith)
        requires
            w <= u32::MAX,
            h <= u32::MAX,
            n <= i32::MAX,
    ;
    for p in 0..n
        invariant
            n == labels.len(),
            n == pix.len(),
            n == w * h,
            n <= i32::MAX,
            w > 0 || n == 0,
            w * n <= 0x7fff_ffff_0000_0000,
            h * n <= 0x7fff_ffff_0000_0000,
            lab == lab_int(labels@),
            wi == w,
            forall|q: int| 0 <= q < labels.len() ==> 0 <= #[trigger] labels@[q] < k,
            totals_upto(t, lab, pix@, wi, k as int, p as int),
    {
        let l = labels[p] as usize;
        let c = pix[p];
        let x = p % w;
        let y = p / w;
        proof {
            lemma_grid_coords(wi, h as int, p as int);
            let pi = p as int;
            lemma_label_sum_bound(lab, l as int, one(), pi, 1);
            assert forall|i: int| 0 <= i < pi implies 0 <= #[trigger] channel(pix@, 0)(i) <= 255 by {}
            assert forall|i: int| 0 <= i < pi implies 0 <= #[trigger] channel(pix@, 1)(i) <= 255 by {}
            assert forall|i: int| 0 <= i < pi implies 0 <= #[trigger] channel(pix@, 2)(i) <= 255 by {}
            lemma_label_sum_bound(lab, l as int, channel(pix@, 0), pi, 255);
            lemma_label_sum_bound(lab, l as int, channel(pix@, 1), pi, 255);
            lemma_label_sum_bound(lab, l as int, channel(pix@, 2), pi, 255);
            assert forall|i: int| 0 <= i < pi implies 0 <= #[trigger] column(wi)(i) <= wi by {
                lemma_mod_bound(i, wi);
            }
            assert forall|i: int| 0 <= i < pi implies 0 <= #[trigger] row(wi)(i) <= h by {
                lemma_grid_coords(wi, h as int, i);
            }
            lemma_label_sum_bound(lab, l as int, column(wi), pi, wi);
            lemma_label_sum_bound(lab, l as int, row(wi), pi, h as int);
            assert(wi * pi <= w * n && h * pi <= h * n) by (nonlinear_arith)
                requires
                    0 <= pi < n,
                    wi == w,
                    0 <= w,
                    0 <= h,
            ;
            assert(t.counts@[l as int] == label_sum(lab, l as int, one(), pi));
        }
        let ghost t_old = t;
        t.counts.set(l, t.counts[l] + 1);
        t.red.set(l, t.red[l] + c[0] as u64);
        t.green.set(l, t.green[l] + c[1] as u64);
        t.blue.set(l, t.blue[l] + c[2] as u64);
        t.xs.set(l, t.xs[l] + x as u64);
        t.ys.set(l, t.ys[l] + y as u64);
        proof {
            let pi = p as int;
            assert forall|m: int| 0 <= m < k implies {
                &&& #[trigger] t.counts@[m] == label_sum(lab, m, one(), pi + 1)
                &&& t.red@[m] == label_sum(lab, m, channel(pix@, 0), pi + 1)
                &&& t.green@[m] == label_sum(lab, m, channel(pix@, 1), pi + 1)
                &&& t.blue@[m] == label_sum(lab, m, channel(pix@, 2), pi + 1)
                &&& t.xs@[m] == label_sum(lab, m, column(wi), pi + 1)
                &&& t.ys@[m] == label_sum(lab, m, row(wi), pi + 1)
            } by {
                assert(t_old.counts@[m] == label_sum(lab, m, one(), pi));
                assert(lab[pi] == l as int);
            }
        }
    }
    t
}

/// `labels` and `regions` are the segmentation of `img` with tolerance `tol`
/// and minimum region size `min_px`: each pixel carries the final label of
/// its raw flood-fill region, and the kept regions are summarised in order.
pub open spec fn segmented(
    img: RgbImage,
    tol: u32,
    min_px: int,
    labels: Seq<i32>,
    regions: Seq<RegionStats>,
) -> bool {
    let raw = flood_labels(img, tol).0;
    let k = flood_labels(img, tol).1;
    &&& raw.len() == img.pix().len()
    &&& forall|p: int| 0 <= p < raw.len() ==> 0 <= #[trigger] raw[p] < k
    &&& labels.len() == img.pix().len()
    &&& forall|p: int|
        0 <= p < labels.len() ==> #[trigger] labels[p] as int == final_label(raw, min_px, raw[p])
    &&& regions.len() == kept_before(raw, min_px, k)
    &&& forall|l: int|
        0 <= l < k && region_size(raw, l) >= min_px ==> #[trigger] region_matches(
            img,
            raw,
            min_px,
            l,
            regions[kept_before(raw, min_px, l)],
        )
}

/// Splits the image into 4-connected regions of similar colour.
///
/// Pixels are visited in row-major order; each pixel not yet in a region
/// seeds a new one, which grows over neighbouring unassigned pixels whose
/// colour is within `tol` (sum of channel differences) of the seed colour.
/// Regions with fewer than `min_px` pixels are dropped (their pixels get
/// label -1); the others are numbered 0, 1, ... in order of their seeds.
/// Returns the label of every pixel and a summary of every kept region.
pub fn segment(img: &RgbImage, tol: u32, min_px: usize) -> (res: (Vec<i32>, Vec<RegionStats>))
    requires
        img.w() * img.h() <= i32::MAX,
    ensures
        segmented(*img, tol, min_px as int, res.0@, res.1@),
        ({
            let raw = flood_labels(*img, tol).0;
            let k = flood_labels(*img, tol).1;
            // every region has a pixel (its seed)
            &&& forall|l: int| 0 <= l < k ==> #[trigger] region_size(raw, l) >= 1
            // labels index the region list
            &&& forall|p: int| 0 <= p < res.0.len() ==> -1 <= #[trigger] res.0@[p] < res.1.len()
            // with no size limit every pixel belongs to a region
            &&& min_px <= 1 ==> forall|p: int| 0 <= p < res.0.len() ==> #[trigger] res.0@[p] >= 0
            // the regions' pixel counts add up to the number of labelled pixels
            &&& total_pixels(res.1@) == count_labelled(res.0@)
        }),
{
    let w = img.width() as usize;
    let h = img.height() as usize;
    let pix = img.pixels();
    let n = pix.len();
    let (mut labels, k) = flood_all(img, tol);
    let ghost raw = lab_int(labels@);
    let ghost mp = min_px as int;
    let t = totals(w, h, pix, &labels, k);
    proof {
        assert forall|l: int| 0 <= l < k implies #[trigger] region_size(raw, l) >= 1 by {
            assert(label_used(labels@, l));
            let p = choose|p: int| 0 <= p < labels@.len() && labels@[p] == l;
            lemma_label_sum_pos(raw, l, n as int, p);
        }
    }
    let mut id_map = filled_i32(k, -1);
    let mut regions: Vec<RegionStats> = Vec::new();
    let mut new_id: usize = 0;
    for l in 0..k
        invariant
            mp == min_px,
            k <= n,
            n <= i32::MAX,
            n == labels.len(),
            raw == lab_int(labels@),
            raw.len() == n,
            pix@ == img.pix(),
            w == img.w(),
            totals_upto(t, raw, pix@, w as int, k as int, n as int),
            forall|m: int| 0 <= m < k ==> #[trigger] region_size(raw, m) >= 1,
            new_id == kept_before(raw, mp, l as int),
            regions.len() == new_id,
            id_map.len() == k,
            forall|m: int| 0 <= m < l ==> #[trigger] id_map@[m] as int == final_label(raw, mp, m),
            forall|m: int| l <= m < k ==> #[trigger] id_map@[m] == -1,
            forall|m: int|
                0 <= m < l && region_size(raw, m) >= mp ==> #[trigger] region_matches(
                    *img,
                    raw,
                    mp,
                    m,
                    regions@[kept_before(raw, mp, m)],
                ),
    {
        proof {
            lemma_kept_before_bound(raw, mp, l as int);
        }
        let ghost old_regions = regions@;
        let cnt = t.counts[l];
        assert(cnt == region_size(raw, l as int));
        if cnt >= min_px {
            let rs = t.red[l];
            let gs = t.green[l];
            let bs = t.blue[l];
            proof {
                let li = l as int;
                let ni = n as int;
                assert forall|i: int| 0 <= i < ni implies 0 <= #[trigger] channel(pix@, 0)(i) <= 255 by {}
                assert forall|i: int| 0 <= i < ni implies 0 <= #[trigger] channel(pix@, 1)(i) <= 255 by {}
                assert forall|i: int| 0 <= i < ni implies 0 <= #[trigger] channel(pix@, 2)(i) <= 255 by {}
                lemma_sum_div_le(raw, li, channel(pix@, 0), ni);
                lemma_sum_div_le(raw, li, channel(pix@, 1), ni);
                lemma_sum_div_le(raw, li, channel(pix@, 2), ni);
            }
            let avg = [(rs / cnt as u64) as u8, (gs / cnt as u64) as u8, (bs / cnt as u64) as u8];
            id_map.set(l, new_id as i32);
            regions.push(
                RegionStats {
                    index: new_id + 1,
                    pixel_count: cnt,
                    avg_color: avg,
                    x_sum: t.xs[l],
                    y_sum: t.ys[l],
                },
            );
            new_id = new_id + 1;
        }
        assert(forall|j: int| 0 <= j < old_regions.len() ==> regions@[j] == old_regions[j]);
        proof {
            let li = l as int;
            assert(kept_before(raw, mp, li + 1) == kept_before(raw, mp, li) + if region_size(raw, li) >= mp {
                1int
            } else {
                0int
            });
            if region_size(raw, li) >= mp {
                let r = regions@[kept_before(raw, mp, li)];
                assert(r.index == kept_before(raw, mp, li) + 1);
                assert(r.pixel_count == region_size(raw, li));
                assert(r.x_sum == label_sum(raw, li, column(img.w() as int), raw.len() as int));
                assert(r.avg_color[0] == label_sum(raw, li, channel(img.pix(), 0), raw.len() as int) / region_size(raw, li));
                assert(region_matches(*img, raw, mp, li, r));
            }
            assert(regions@.len() == kept_before(raw, mp, li + 1));
            assert forall|m: int|
                0 <= m < li + 1 && region_size(raw, m) >= mp implies #[trigger] region_matches(
                *img,
                raw,
                mp,
                m,
                regions@[kept_before(raw, mp, m)],
            ) by {
                if m < li {
                    lemma_kept_before_mono(raw, mp, m + 1, li);
                    let j = kept_before(raw, mp, m);
                    lemma_kept_before_bound(raw, mp, m);
                    assert(kept_before(raw, mp, m + 1) == j + 1);
                    assert(j < old_regions.len());
                    assert(region_matches(*img, raw, mp, m, old_regions[j]));
                    assert(regions@[j] == old_regions[j]);
                }
            }
        }
    }
    let ghost pre_relabel = labels@;
    for p in 0..n
        invariant
            mp == min_px,
            n == labels.len(),
            raw.len() == n,
            id_map.len() == k,
            forall|m: int| 0 <= m < k ==> #[trigger] id_map@[m] as int == final_label(raw, mp, m),
            forall|q: int| 0 <= q < n ==> 0 <= #[trigger] raw[q] < k,
            forall|q: int| 0 <= q < p ==> #[trigger] labels@[q] as int == final_label(raw, mp, raw[q]),
            forall|q: int| p <= q < n ==> #[trigger] labels@[q] as int == raw[q],
    {
        let v = labels[p];
        if v >= 0 {
            labels.set(p, id_map[v as usize]);
        }
    }
    proof {
        lemma_kept_before_bound(raw, mp, k as int);
        assert forall|p: int| 0 <= p < labels.len() implies -1 <= #[trigger] labels@[p] < regions.len() by {
            let v = raw[p];
            if region_size(raw, v) >= mp {
                lemma_kept_before_bound(raw, mp, v);
                lemma_kept_before_mono(raw, mp, v + 1, k as int);
            }
        }
        lemma_count_labelled(raw, mp, k as int, labels@, n as int);
        assert(labels@.take(n as int) =~= labels@);
        assert forall|l: int| 0 <= l < k && region_size(raw, l) >= mp implies #[trigger] regions@[kept_before(
            raw,
            mp,
            l,
        )].pixel_count == region_size(raw, l) by {
            assert(region_matches(*img, raw, mp, l, regions@[kept_before(raw, mp, l)]));
        }
        lemma_kept_sizes_pixels(raw, mp, k as int, n as int);
        lemma_total_pixels_prefix(raw, mp, regions@, k as int, n as int);
        assert(regions@.take(kept_before(raw, mp, k as int)) =~= regions@);
        assert(total_pixels(regions@) == count_labelled(labels@));
        if min_px <= 1 {
            assert forall|p: int| 0 <= p < labels.len() implies #[trigger] labels@[p] >= 0 by {
                let v = raw[p];
                assert(region_size(raw, v) >= 1);
                lemma_kept_before_bound(raw, mp, v);
            }
        }
        assert(forall|l: int| 0 <= l < k ==> #[trigger] region_size(raw, l) >= 1);
    }
    (labels, regions)
}

/// Sum of the pixel counts of `regions`.
pub open spec fn total_pixels(regions: Seq<RegionStats>) -> int
    decreases regions.len(),
{
    if regions.len() == 0 {
        0
    } else {
        total_pixels(regions.drop_last()) + regions.last().pixel_count
    }
}

/// Number of entries of a label map that belong to a region.
pub open spec fn count_labelled(labels: Seq<i32>) -> int
    decreases labels.len(),
{
    if labels.len() == 0 {
        0
    } else {
        count_labelled(labels.drop_last()) + if labels.last() >= 0 {
            1int
        } else {
            0int
        }
    }
}

/// Number of pixels `p < upto` whose raw label is below `k` and belongs to a kept region.
spec fn kept_pixels(raw: Seq<int>, mp: int, k: int, upto: int) -> int
    decreases upto,
{
    if upto <= 0 {
        0
    } else {
        kept_pixels(raw, mp, k, upto - 1) + if 0 <= raw[upto - 1] < k && region_size(
            raw,
            raw[upto - 1],
        ) >= mp {
            1int
        } else {
            0int
        }
    }
}

/// Sum, over the kept labels below `l`, of their pixel counts among the first `upto` pixels.
spec fn kept_sizes(raw: Seq<int>, mp: int, l: int, upto: int) -> int
    decreases l,
{
    if l <= 0 {
        0
    } else {
        kept_sizes(raw, mp, l - 1, upto) + if region_size(raw, l - 1) >= mp {
            label_sum(raw, l - 1, one(), upto)
        } else {
            0
        }
    }
}

proof fn lemma_kept_sizes_step(raw: Seq<int>, mp: int, l: int, upto: int)
    requires
        0 <= l,
        0 <= upto,
    ensures
        kept_sizes(raw, mp, l, upto + 1) == kept_sizes(raw, mp, l, upto) + if 0 <= raw[upto] < l
            && region_size(raw, raw[upto]) >= mp {
            1int
        } else {
            0int
        },
    decreases l,
{
    if l > 0 {
        lemma_kept_sizes_step(raw, mp, l - 1, upto);
    }
}

proof fn lemma_kept_sizes_pixels(raw: Seq<int>, mp: int, k: int, upto: int)
    requires
        0 <= k,
        0 <= upto,
    ensures
        kept_sizes(raw, mp, k, upto) == kept_pixels(raw, mp, k, upto),
    decreases upto,
{
    if upto > 0 {
        lemma_kept_sizes_pixels(raw, mp, k, upto - 1);
        lemma_kept_sizes_step(raw, mp, k, upto - 1);
    } else {
        lemma_kept_sizes_zero(raw, mp, k);
    }
}

proof fn lemma_kept_sizes_zero(raw: Seq<int>, mp: int, l: int)
    requires
        0 <= l,
    ensures
        kept_sizes(raw, mp, l, 0) == 0,
    decreases l,
{
    if l > 0 {
        lemma_kept_sizes_zero(raw, mp, l - 1);
    }
}

proof fn lemma_count_labelled(raw: Seq<int>, mp: int, k: int, labels: Seq<i32>, upto: int)
    requires
        0 <= upto <= labels.len(),
        labels.len() == raw.len(),
        forall|q: int| 0 <= q < raw.len() ==> 0 <= #[trigger] raw[q] < k,
        forall|q: int|
            0 <= q < labels.len() ==> #[trigger] labels[q] as int == final_label(raw, mp, raw[q]),
    ensures
        count_labelled(labels.take(upto)) == kept_pixels(raw, mp, k, upto),
    decreases upto,
{
    if upto > 0 {
        lemma_count_labelled(raw, mp, k, labels, upto - 1);
        assert(labels.take(upto).drop_last() =~= labels.take(upto - 1));
        let v = raw[upto - 1];
        if region_size(raw, v) >= mp {
            lemma_kept_before_bound(raw, mp, v);
        }
    } else {
        assert(labels.take(0) =~= Seq::<i32>::empty());
    }
}

/// The pixel counts of the first regions add up to the sizes of the kept labels below `k`.
proof fn lemma_total_pixels_prefix(raw: Seq<int>, mp: int, regions: Seq<RegionStats>, k: int, n: int)
    requires
        0 <= k,
        n == raw.len(),
        kept_before(raw, mp, k) <= regions.len(),
        forall|l: int|
            0 <= l < k && region_size(raw, l) >= mp ==> #[trigger] regions[kept_before(
                raw,
                mp,
                l,
            )].pixel_count == region_size(raw, l),
    ensures
        total_pixels(regions.take(kept_before(raw, mp, k))) == kept_sizes(raw, mp, k, n),
    decreases k,
{
    if k > 0 {
        lemma_kept_before_bound(raw, mp, k - 1);
        lemma_kept_before_mono(raw, mp, k - 1, k);
        let j = kept_before(raw, mp, k - 1);
        lemma_total_pixels_prefix(raw, mp, regions, k - 1, n);
        if region_size(raw, k - 1) >= mp {
            assert(regions.take(j + 1).drop_last() =~= regions.take(j));
            assert(regions.take(j + 1).last() == regions[j]);
        }
    } else {
        assert(regions.take(0) =~= Seq::<RegionStats>::empty());
    }
}

proof fn lemma_kept_before_mono(lab: Seq<int>, min_px: int, a: int, b: int)
    requires
        0 <= a <= b,
    ensures
        kept_before(lab, min_px, a) <= kept_before(lab, min_px, b),
    decreases b - a,
{
    if a < b {
        lemma_kept_before_mono(lab, min_px, a, b - 1);
    }
}

/// A channel sum over a region divided by its size is a channel value.
proof fn lemma_sum_div_le(lab: Seq<int>, l: int, f: spec_fn(int) -> int, k: int)
    requires
        0 <= k,
        label_sum(lab, l, one(), k) >= 1,
        forall|i: int| 0 <= i < k ==> 0 <= #[trigger] f(i) <= 255,
    ensures
        0 <= label_sum(lab, l, f, k) / label_sum(lab, l, one(), k) <= 255,
{
    lemma_sum_weighted(lab, l, f, k);
    let s = label_sum(lab, l, f, k);
    let c = label_sum(lab, l, one(), k);
    assert(0 <= s / c <= 255) by (nonlinear_arith)
        requires
            0 <= s <= 255 * c,
            c >= 1,
    ;
}

/// Each term of a sum bounded by 255 gives at most 255 times the count.
proof fn lemma_sum_weighted(lab: Seq<int>, l: int, f: spec_fn(int) -> int, k: int)
    requires
        0 <= k,
        forall|i: int| 0 <= i < k ==> 0 <= #[trigger] f(i) <= 255,
    ensures
        0 <= label_sum(lab, l, f, k) <= 255 * label_sum(lab, l, one(), k),
    decreases k,
{
    if k > 0 {
        lemma_sum_weighted(lab, l, f, k - 1);
        assert(f(k - 1) <= 255);
    }
}


// ---------------------------------------------------------------------------
// Changing the minimum region size
// ---------------------------------------------------------------------------
proof fn lemma_kept_before_antitone(lab: Seq<int>, m1: int, m2: int, l: int)
    requires
        m1 <= m2,
        0 <= l,
    ensures
        kept_before(lab, m2, l) <= kept_before(lab, m1, l),
    decreases l,
{
    if l > 0 {
        lemma_kept_before_antitone(lab, m1, m2, l - 1);
    }
}

/// Kept labels get distinct, increasing final labels.
proof fn lemma_kept_before_strict(lab: Seq<int>, m: int, v: int, l: int)
    requires
        0 <= v < l,
        region_size(lab, v) >= m,
    ensures
        kept_before(lab, m, v) < kept_before(lab, m, l),
{
    assert(kept_before(lab, m, v + 1) == kept_before(lab, m, v) + 1);
    lemma_kept_before_mono(lab, m, v + 1, l);
}

/// Every final label below `kept_before(k)` belongs to some kept label below `k`.
proof fn lemma_kept_before_onto(lab: Seq<int>, m: int, k: int, j: int)
    requires
        0 <= k,
        0 <= j < kept_before(lab, m, k),
    ensures
        exists|l: int|
            0 <= l < k && region_size(lab, l) >= m && #[trigger] kept_before(lab, m, l) == j,
    decreases k,
{
    if j < kept_before(lab, m, k - 1) {
        lemma_kept_before_onto(lab, m, k - 1, j);
        let l = choose|l: int|
            0 <= l < k - 1 && region_size(lab, l) >= m && #[trigger] kept_before(lab, m, l) == j;
        assert(0 <= l < k && region_size(lab, l) >= m && kept_before(lab, m, l) == j);
    } else {
        lemma_kept_before_bound(lab, m, k - 1);
        assert(region_size(lab, k - 1) >= m);
        assert(kept_before(lab, m, k - 1) == j);
    }
}

/// Region `k2` of the second segmentation is region `k1` of the first: the
/// same pixels, pixel count, mean colour and coordinate sums.
pub open spec fn same_region(
    l1: Seq<i32>,
    r1: Seq<RegionStats>,
    k1: int,
    l2: Seq<i32>,
    r2: Seq<RegionStats>,
    k2: int,
) -> bool {
    &&& 0 <= k1 < r1.len()
    &&& forall|i: int| 0 <= i < l1.len() ==> (l2[i] == k2 <==> #[trigger] l1[i] == k1)
    &&& r2[k2].pixel_count == r1[k1].pixel_count
    &&& r2[k2].avg_color == r1[k1].avg_color
    &&& r2[k2].x_sum == r1[k1].x_sum
    &&& r2[k2].y_sum == r1[k1].y_sum
}

/// Region `k2` of the second segmentation is one of the regions of the first.
pub open spec fn region_kept(
    l1: Seq<i32>,
    r1: Seq<RegionStats>,
    l2: Seq<i32>,
    r2: Seq<RegionStats>,
    k2: int,
) -> bool {
    exists|k1: int| #[trigger] same_region(l1, r1, k1, l2, r2, k2)
}

/// Raising the minimum region size only drops whole regions: no pixel gains
/// a label, and every region that stays is a region of the smaller limit,
/// with the same pixels, pixel count, mean colour and coordinate sums.
pub proof fn lemma_raising_min_px(
    img: RgbImage,
    tol: u32,
    m1: int,
    m2: int,
    l1: Seq<i32>,
    r1: Seq<RegionStats>,
    l2: Seq<i32>,
    r2: Seq<RegionStats>,
)
    requires
        m1 <= m2,
        segmented(img, tol, m1, l1, r1),
        segmented(img, tol, m2, l2, r2),
    ensures
        l1.len() == l2.len(),
        r2.len() <= r1.len(),
        forall|i: int| 0 <= i < l2.len() && #[trigger] l2[i] >= 0 ==> l1[i] >= 0,
        forall|k2: int| 0 <= k2 < r2.len() ==> #[trigger] region_kept(l1, r1, l2, r2, k2),
{
    let raw = flood_labels(img, tol).0;
    let k = flood_labels(img, tol).1;
    if k >= 0 {
        lemma_kept_before_antitone(raw, m1, m2, k);
    } else {
        assert(raw.len() == 0) by {
            if raw.len() > 0 {
                assert(0 <= raw[0] < k);
            }
        }
    }
    assert forall|i: int| 0 <= i < l2.len() && #[trigger] l2[i] >= 0 implies l1[i] >= 0 by {
        let v = raw[i];
        assert(l2[i] as int == final_label(raw, m2, v));
        assert(l1[i] as int == final_label(raw, m1, v));
        lemma_kept_before_bound(raw, m1, v);
    }
    assert forall|k2: int| 0 <= k2 < r2.len() implies #[trigger] region_kept(l1, r1, l2, r2, k2) by {
        lemma_kept_before_onto(raw, m2, k, k2);
        let l = choose|l: int|
            0 <= l < k && region_size(raw, l) >= m2 && #[trigger] kept_before(raw, m2, l) == k2;
        let k1 = kept_before(raw, m1, l);
        lemma_kept_before_bound(raw, m1, l);
        lemma_kept_before_strict(raw, m1, l, k);
        assert(region_matches(img, raw, m2, l, r2[k2]));
        assert(region_matches(img, raw, m1, l, r1[k1]));
        assert forall|i: int| 0 <= i < l1.len() implies (l2[i] == k2 <==> #[trigger] l1[i] == k1) by {
            let v = raw[i];
            assert(l2[i] as int == final_label(raw, m2, v));
            assert(l1[i] as int == final_label(raw, m1, v));
            if v < l {
                if region_size(raw, v) >= m2 {
                    lemma_kept_before_strict(raw, m2, v, l);
                }
                if region_size(raw, v) >= m1 {
                    lemma_kept_before_strict(raw, m1, v, l);
                }
            } else if v > l {
                lemma_kept_before_strict(raw, m2, l, v);
                lemma_kept_before_strict(raw, m1, l, v);
            }
        }
        assert(0 <= k1 < r1.len());
        assert(r2[k2].pixel_count == r1[k1].pixel_count);
        assert(r2[k2].x_sum == r1[k1].x_sum);
        assert(r2[k2].y_sum == r1[k1].y_sum);
        assert(r2[k2].avg_color@ =~= r1[k1].avg_color@);
        assert(r2[k2].avg_color == r1[k1].avg_color);
        assert(same_region(l1, r1, k1, l2, r2, k2));
    }
}

} // verus!
