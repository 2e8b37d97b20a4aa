use vstd::prelude::*;

verus! {

/// The number of `i` in `lo..hi` for which `f(i)` holds.
pub open spec fn count_true(f: spec_fn(int) -> bool, lo: int, hi: int) -> nat
    decreases hi - lo,
{
    if lo >= hi {
        0
    } else {
        (if f(lo) {
            1nat
        } else {
            0nat
        }) + count_true(f, lo + 1, hi)
    }
}

proof fn lemma_count_split_last(f: spec_fn(int) -> bool, lo: int, hi: int)
    requires
        lo < hi,
    ensures
        count_true(f, lo, hi) == count_true(f, lo, hi - 1) + if f(hi - 1) {
            1nat
        } else {
            0nat
        },
    decreases hi - lo,
{
    if lo + 1 < hi {
        lemma_count_split_last(f, lo + 1, hi);
        assert(count_true(f, lo, hi - 1) == (if f(lo) {
            1nat
        } else {
            0nat
        }) + count_true(f, lo + 1, hi - 1));
    } else {
        assert(count_true(f, lo + 1, hi) == 0);
        assert(count_true(f, lo, hi - 1) == 0);
    }
}

proof fn lemma_count_congruent(f: spec_fn(int) -> bool, g: spec_fn(int) -> bool, lo: int, hi: int)
    requires
        forall|i: int| lo <= i < hi ==> #[trigger] f(i) == g(i),
    ensures
        count_true(f, lo, hi) == count_true(g, lo, hi),
    decreases hi - lo,
{
    if lo < hi {
        lemma_count_congruent(f, g, lo + 1, hi);
    }
}

proof fn lemma_count_shift(f: spec_fn(int) -> bool, lo: int, hi: int)
    ensures
        count_true(f, lo + 1, hi + 1) == count_true(|i: int| f(i + 1), lo, hi),
    decreases hi - lo,
{
    if lo < hi {
        lemma_count_shift(f, lo + 1, hi);
    }
}

proof fn lemma_count_reverse(f: spec_fn(int) -> bool, lo: int, hi: int)
    ensures
        count_true(f, lo, hi) == count_true(|i: int| f(lo + hi - 1 - i), lo, hi),
    decreases hi - lo,
{
    if lo < hi {
        let rf = |i: int| f(lo + hi - 1 - i);
        lemma_count_split_last(f, lo, hi);
        lemma_count_reverse(f, lo, hi - 1);
        lemma_count_shift(rf, lo, hi - 1);
        lemma_count_congruent(
            |i: int| rf(i + 1),
            |i: int| f(lo + (hi - 1) - 1 - i),
            lo,
            hi - 1,
        );
    }
}

/// Whether the edge from `a` to `b` crosses the ray that runs from the centre of
/// pixel `(x, y)` towards increasing `x`. Coordinates are doubled so that the
/// centre `(2x + 1, 2y + 1)` is a pair of integers; no vertex lies on the ray's line.
pub open spec fn edge_crosses(a: (i32, i32), b: (i32, i32), x: int, y: int) -> bool {
    let px = 2 * x + 1;
    let py = 2 * y + 1;
    let ax = 2 * a.0 as int;
    let ay = 2 * a.1 as int;
    let bx = 2 * b.0 as int;
    let by = 2 * b.1 as int;
    if (ay > py) != (by > py) {
        let cross = (ax - px) * (by - ay) + (py - ay) * (bx - ax);
        if by > ay {
            cross > 0
        } else {
            cross < 0
        }
    } else {
        false
    }
}

/// The vertex after vertex `i`, wrapping round to the first.
pub open spec fn next_index(n: int, i: int) -> int {
    if i + 1 == n {
        0
    } else {
        i + 1
    }
}

/// Whether edge `i` of the closed polygon crosses the ray from pixel `(x, y)`.
pub open spec fn polygon_edge_crosses(p: Seq<(i32, i32)>, x: int, y: int, i: int) -> bool {
    edge_crosses(p[i], p[next_index(p.len() as int, i)], x, y)
}

/// How many edges of the closed polygon the ray from pixel `(x, y)` crosses.
pub open spec fn crossing_count(p: Seq<(i32, i32)>, x: int, y: int) -> nat {
    count_true(|i: int| polygon_edge_crosses(p, x, y, i), 0, p.len() as int)
}

/// Whether the polygon covers pixel `(x, y)` by the even-odd rule: the ray from
/// the pixel's centre crosses its boundary an odd number of times. The rule
/// needs no particular winding direction.
pub open spec fn polygon_covers(p: Seq<(i32, i32)>, x: int, y: int) -> bool {
    p.len() >= 3 && crossing_count(p, x, y) % 2 == 1
}

proof fn lemma_edge_crosses_symmetric(a: (i32, i32), b: (i32, i32), x: int, y: int)
    ensures
        edge_crosses(a, b, x, y) == edge_crosses(b, a, x, y),
{
    let px = 2 * x + 1;
    let py = 2 * y + 1;
    let ax = 2 * a.0 as int;
    let ay = 2 * a.1 as int;
    let bx = 2 * b.0 as int;
    let by = 2 * b.1 as int;
    assert((bx - px) * (ay - by) + (py - by) * (ax - bx) == -((ax - px) * (by - ay) + (py - ay) * (
    bx - ax))) by (nonlinear_arith);
}

/// A polygon covers the same pixels whichever direction its vertices run in:
/// reversing the vertex order changes no pixel.
pub proof fn lemma_polygon_reverse_invariant(p: Seq<(i32, i32)>, x: int, y: int)
    ensures
        polygon_covers(p.reverse(), x, y) == polygon_covers(p, x, y),
{
    let n = p.len() as int;
    let q = p.reverse();
    if n >= 3 {
        assert(q.len() == n);
        let g = |i: int| polygon_edge_crosses(p, x, y, i);
        let h = |i: int| polygon_edge_crosses(q, x, y, i);
        assert forall|i: int| 0 <= i < n - 1 implies #[trigger] h(i) == g(n - 2 - i) by {
            assert(q[i] == p[n - 1 - i]);
            assert(q[i + 1] == p[n - 2 - i]);
            lemma_edge_crosses_symmetric(p[n - 2 - i], p[n - 1 - i], x, y);
        }
        assert(h(n - 1) == g(n - 1)) by {
            assert(q[n - 1] == p[0]);
            assert(q[0] == p[n - 1]);
            lemma_edge_crosses_symmetric(p[n - 1], p[0], x, y);
        }
        lemma_count_split_last(h, 0, n);
        lemma_count_split_last(g, 0, n);
        lemma_count_congruent(h, |i: int| g(0 + (n - 1) - 1 - i), 0, n - 1);
        lemma_count_reverse(g, 0, n - 1);
    }
}

/// Whether the polygon with vertices `p` covers the pixel `(x, y)` by the
/// even-odd rule.
pub fn polygon_contains(p: &Vec<(i32, i32)>, x: i64, y: i64) -> (b: bool)
    requires
        -0x4_0000_0000 <= x <= 0x4_0000_0000,
        -0x4_0000_0000 <= y <= 0x4_0000_0000,
    ensures
        b == polygon_covers(p@, x as int, y as int),
{
    let n = p.len();
    if n < 3 {
        return false;
    }
    let ghost f = |i: int| polygon_edge_crosses(p@, x as int, y as int, i);
    let px: i128 = 2 * (x as i128) + 1;
    let py: i128 = 2 * (y as i128) + 1;
    let mut odd = false;
    let mut i: usize = 0;
    while i < n
        invariant
            -0x4_0000_0000 <= x <= 0x4_0000_0000,
            -0x4_0000_0000 <= y <= 0x4_0000_0000,
            n == p@.len(),
            n >= 3,
            i <= n,
            px == 2 * x + 1,
            py == 2 * y + 1,
            f == (|i: int| polygon_edge_crosses(p@, x as int, y as int, i)),
            odd == (count_true(f, 0, i as int) % 2 == 1),
        decreases n - i,
    {
        let j = if i + 1 == n {
            0
        } else {
            i + 1
        };
        let a = p[i];
        let b = p[j];
        let ax: i128 = 2 * (a.0 as i128);
        let ay: i128 = 2 * (a.1 as i128);
        let bx: i128 = 2 * (b.0 as i128);
        let by: i128 = 2 * (b.1 as i128);
        let crosses = if (ay > py) != (by > py) {
            let d1 = ax - px;
            let d2 = by - ay;
            let d3 = py - ay;
            let d4 = bx - ax;
            assert(-0x100_0000_0000_0000_0000 <= d1 * d2 <= 0x100_0000_0000_0000_0000) by (
            nonlinear_arith)
                requires
                    -0x10_0000_0000 <= d1 <= 0x10_0000_0000,
                    -0x10_0000_0000 <= d2 <= 0x10_0000_0000,
            ;
            assert(-0x100_0000_0000_0000_0000 <= d3 * d4 <= 0x100_0000_0000_0000_0000) by (
            nonlinear_arith)
                requires
                    -0x10_0000_0000 <= d3 <= 0x10_0000_0000,
                    -0x10_0000_0000 <= d4 <= 0x10_0000_0000,
            ;
            let cross = d1 * d2 + d3 * d4;
            if by > ay {
                cross > 0
            } else {
                cross < 0
            }
        } else {
            false
        };
        proof {
            lemma_count_split_last(f, 0, i + 1);
            assert(crosses == f(i as int));
        }
        if crosses {
            odd = !odd;
        }
        i = i + 1;
    }
    odd
}

} // verus!
