//! Geometry of overlapping chunks: coordinates on a grid, the offsets at which
//! two square chunks overlap, and the raw graph that links each pixel position
//! to the positions a chunk placed there overlaps.

use vstd::prelude::*;
use crate::domain::LabelDomain;
use crate::graph::Graph;
use crate::domain::{keep_only, weight};
use crate::matrix::{Matrix, crop, rows_of};
use crate::rules::RuleTable;
use crate::state::{Status, settle};
use crate::collapse::{Collapse, init_state};

verus! {

/// Column and row of `index` on a grid `width` wide.
pub fn index_to_coords(index: u32, width: u32) -> (r: (u32, u32))
    requires
        width > 0,
    ensures
        r.0 == index % width,
        r.1 == index / width,
{
    (index % width, index / width)
}

/// Index of column `x`, row `y` on a grid `width` wide.
pub fn coords_to_index(coords: (u32, u32), width: u32) -> (r: u32)
    requires
        coords.0 + coords.1 * width <= u32::MAX,
    ensures
        r == coords.0 + coords.1 * width,
{
    let (x, y) = coords;
    assert(y * width <= u32::MAX) by (nonlinear_arith)
        requires
            x + y * width <= u32::MAX,
            x >= 0,
    ;
    x + y * width
}

/// Whether `(x, y)` lies on a grid of `w` columns and `h` rows.
pub fn is_inside(coords: (i32, i32), size: (u32, u32)) -> (r: bool)
    ensures
        r == (0 <= coords.0 < size.0 && 0 <= coords.1 < size.1),
{
    let (x, y) = coords;
    let (w, h) = size;
    !(x < 0 || y < 0 || x as i64 > w as i64 - 1 || y as i64 > h as i64 - 1)
}

/// The positions, on the raw graph of a 3 by 3 block of chunks, of the centres of
/// the eight chunks around the middle one: NW, N, NE, W, E, SW, S, SE.
pub fn real_vertex_indexes(chunk_size: usize) -> (r: Vec<usize>)
    requires
        chunk_size >= 1,
        2 * (2 * chunk_size + 1) * chunk_size + 2 * chunk_size <= usize::MAX,
    ensures
        ({
            let n = chunk_size as int;
            let dim = 2 * n + 1;
            r@ == seq![
                0usize,
                n as usize,
                (2 * n) as usize,
                (dim * n) as usize,
                (dim * n + 2 * n) as usize,
                (2 * dim * n) as usize,
                (2 * dim * n + n) as usize,
                (2 * dim * n + 2 * n) as usize,
            ]
        }),
{
    let n = chunk_size;
    let dim = n + n + 1;
    let step = n - 1;
    assert(dim * n * 2 + 2 * n <= usize::MAX && dim * n <= dim * n * 2) by (nonlinear_arith)
        requires
            dim == 2 * n + 1,
            2 * (2 * n + 1) * n + 2 * n <= usize::MAX,
            n >= 1,
    ;
    assert(2 * dim * n == 2 * (2 * n + 1) * n) by (nonlinear_arith)
        requires
            dim == 2 * n + 1,
    ;
    let r = vec![
        0,
        step + 1,
        (step + 1) * 2,
        dim * n,
        dim * n + (step + 1) * 2,
        dim * n * 2,
        dim * n * 2 + step + 1,
        dim * n * 2 + (step + 1) * 2,
    ];
    assert(dim * n * 2 == 2 * dim * n) by (nonlinear_arith);
    assert(r@ =~= seq![
        0usize,
        n as usize,
        (2 * n) as usize,
        (dim * n) as usize,
        (dim * n + 2 * n) as usize,
        (2 * dim * n) as usize,
        (2 * dim * n + n) as usize,
        (2 * dim * n + 2 * n) as usize,
    ]);
    r
}

/// Offsets at which two chunks of side `n` overlap, along one axis, count
/// `2n - 1`. At step `i` the overlap starts at `offset_pos` and is `offset_len` long.
pub open spec fn offset_pos(n: int, i: int) -> int {
    if i < n { 0 } else { i - (n - 1) }
}

/// Length of the overlap at step `i`.
pub open spec fn offset_len(n: int, i: int) -> int {
    if i < n { i + 1 } else { 2 * n - 1 - i }
}

/// The position, size and direction of the overlap for grid step `(a, b)`: `a`
/// along the rows, `b` along the columns.
pub open spec fn sub_chunk(n: int, a: int, b: int, d: int) -> ((u32, u32), (u32, u32), u16) {
    (
        (offset_pos(n, b) as u32, offset_pos(n, a) as u32),
        (offset_len(n, b) as u32, offset_len(n, a) as u32),
        d as u16,
    )
}

/// Direction number of grid step `(a, b)` with period `p`: its place in row-major
/// order, not counting the full overlap at `(n - 1, n - 1)`.
pub open spec fn direction_of(n: int, a: int, b: int) -> int {
    let p = 2 * n - 1;
    let k = a * p + b;
    if k > (n - 1) * p + (n - 1) { k - 1 } else { k }
}

/// Every partial overlap of two chunks of side `chunk_size`, as the position and
/// size of the overlapping part of the first chunk, numbered in row-major order;
/// the full overlap is left out.
pub fn sub_chunk_positions(chunk_size: u32) -> (r: Vec<((u32, u32), (u32, u32), u16)>)
    requires
        1 <= chunk_size <= 128,
    ensures
        ({
            let n = chunk_size as int;
            let p = 2 * n - 1;
            &&& r@.len() == p * p - 1
            &&& forall|a: int, b: int|
                0 <= a < p && 0 <= b < p && !(a == n - 1 && b == n - 1) ==> r@[direction_of(n, a, b)]
                    == #[trigger] sub_chunk(n, a, b, direction_of(n, a, b))
        }),
{
    let n = chunk_size;
    let period = n * 2 - 1;
    let ghost ni = n as int;
    let ghost p = period as int;
    let mut r: Vec<((u32, u32), (u32, u32), u16)> = Vec::new();
    let mut a: u32 = 0;
    while a < period
        invariant
            n == chunk_size,
            1 <= n <= 128,
            period == 2 * n - 1,
            p == period,
            ni == n,
            a <= period,
            r@.len() == if a <= n - 1 { a * p } else { a * p - 1 },
            forall|a2: int, b2: int|
                0 <= a2 < a && 0 <= b2 < p && !(a2 == ni - 1 && b2 == ni - 1) ==> r@[direction_of(ni, a2, b2)]
                    == #[trigger] sub_chunk(ni, a2, b2, direction_of(ni, a2, b2)),
        decreases period - a,
    {
        let mut b: u32 = 0;
        while b < period
            invariant
                n == chunk_size,
                1 <= n <= 128,
                period == 2 * n - 1,
                p == period,
                ni == n,
                a < period,
                b <= period,
                r@.len() == if a < n - 1 || (a == n - 1 && b <= n - 1) { a * p + b } else { a * p + b - 1 },
                forall|a2: int, b2: int|
                    0 <= a2 < p && 0 <= b2 < p && (a2 < a || (a2 == a && b2 < b)) && !(a2 == ni - 1 && b2
                        == ni - 1) ==> r@[direction_of(ni, a2, b2)]
                        == #[trigger] sub_chunk(ni, a2, b2, direction_of(ni, a2, b2)),
            decreases period - b,
        {
            let full = a == n - 1 && b == n - 1;
            if !full {
                let pos_x = if b < n { 0 } else { b - (n - 1) };
                let pos_y = if a < n { 0 } else { a - (n - 1) };
                let len_x = if b < n { b + 1 } else { 2 * n - 1 - b };
                let len_y = if a < n { a + 1 } else { 2 * n - 1 - a };
                let ghost before = r@;
                assert(a * p + b < p * p) by (nonlinear_arith)
                    requires
                        a < p,
                        b < p,
                ;
                assert(p * p <= 65536) by (nonlinear_arith)
                    requires
                        p <= 255,
                        p >= 1,
                ;
                proof {
                if a as int > ni - 1 {
                    assert(a * p + b > (ni - 1) * p + (ni - 1)) by (nonlinear_arith)
                        requires
                            a >= ni,
                            p == 2 * ni - 1,
                            b >= 0,
                            ni >= 1,
                    ;
                } else if (a as int) < ni - 1 {
                    assert(a * p + b < (ni - 1) * p) by (nonlinear_arith)
                        requires
                            a + 1 <= ni - 1,
                            b < p,
                            p >= 1,
                    ;
                }
                }
                let d = r.len() as u16;
                assert(d as int == direction_of(ni, a as int, b as int));
                r.push(((pos_x, pos_y), (len_x, len_y), d));
                assert forall|a2: int, b2: int|
                    0 <= a2 < p && 0 <= b2 < p && (a2 < a || (a2 == a && b2 < b + 1)) && !(a2 == ni - 1
                        && b2 == ni - 1) implies r@[direction_of(ni, a2, b2)]
                    == #[trigger] sub_chunk(ni, a2, b2, direction_of(ni, a2, b2)) by {
                    if a2 == a && b2 == b {
                    } else {
                        assert(direction_of(ni, a2, b2) < before.len()) by (nonlinear_arith)
                            requires
                                (a2 < a || (a2 == a && b2 < b)),
                                0 <= b2 < p,
                                0 <= a2,
                                before.len() == if a < ni - 1 || (a == ni - 1 && b <= ni - 1) { a * p + b } else { a * p + b - 1 },
                                direction_of(ni, a2, b2) == if a2 * p + b2 > (ni - 1) * p + (ni - 1) { a2 * p + b2 - 1 } else { a2 * p + b2 },
                                0 <= b < p,
                                p == 2 * ni - 1,
                                !(a2 == ni - 1 && b2 == ni - 1),
                        ;
                    }
                }
            }
            b = b + 1;
        }
        assert(a * p + p == (a + 1) * p) by (nonlinear_arith);
        a = a + 1;
    }
    assert(p * p == period * period);
    r
}

/// The vertex that a chunk at vertex `v` of a `vx` by `vy` raw graph overlaps at
/// grid step `(a, b)`, if it lies on the graph.
pub open spec fn raw_target(n: int, vx: int, vy: int, v: int, a: int, b: int) -> Option<int> {
    let x = v % vx + b - (n - 1);
    let y = v / vx + a - (n - 1);
    if 0 <= x < vx && 0 <= y < vy {
        Some(x + y * vx)
    } else {
        None
    }
}

/// `(a, b)` is a grid step of a partial overlap of chunks of side `n`.
pub open spec fn partial_step(n: int, a: int, b: int) -> bool {
    0 <= a < 2 * n - 1 && 0 <= b < 2 * n - 1 && !(a == n - 1 && b == n - 1)
}

proof fn lemma_direction_order(n: int, a: int, b: int, p: int)
    requires
        n >= 1,
        p == 2 * n - 1,
        0 <= a,
        0 <= b < p,
    ensures
        (a * p + b > (n - 1) * p + (n - 1)) == (a > n - 1 || (a == n - 1 && b > n - 1)),
{
    if a > n - 1 {
        assert(a * p + b > (n - 1) * p + (n - 1)) by (nonlinear_arith)
            requires
                a >= n,
                p == 2 * n - 1,
                b >= 0,
                n >= 1,
        ;
    } else if a < n - 1 {
        assert(a * p + b < (n - 1) * p) by (nonlinear_arith)
            requires
                a + 1 <= n - 1,
                b < p,
                p >= 1,
        ;
    }
}

/// Edge `e` out of vertex `v` leads to the vertex that some partial overlap
/// reaches, and carries that overlap's direction.
pub open spec fn edge_ok(n: int, vx: int, vy: int, v: int, e: (usize, usize)) -> bool {
    exists|a: int, b: int|
        #[trigger] partial_step(n, a, b) && raw_target(n, vx, vy, v, a, b) == Some(e.0 as int) && e.1
            == direction_of(n, a, b)
}

/// If the overlap at grid step `(a, b)` reaches a vertex, `list` has the edge to it.
pub open spec fn listed(n: int, vx: int, vy: int, v: int, list: Seq<(usize, usize)>, a: int, b: int) -> bool {
    raw_target(n, vx, vy, v, a, b) is Some ==> exists|k: int|
        0 <= k < list.len() && #[trigger] list[k] == (
            raw_target(n, vx, vy, v, a, b).unwrap() as usize,
            direction_of(n, a, b) as usize,
        )
}

proof fn lemma_listed_push(n: int, vx: int, vy: int, v: int, list: Seq<(usize, usize)>, x: (usize, usize), a: int, b: int)
    requires
        listed(n, vx, vy, v, list, a, b),
    ensures
        listed(n, vx, vy, v, list.push(x), a, b),
{
    if raw_target(n, vx, vy, v, a, b) is Some {
        let k = choose|k: int|
            0 <= k < list.len() && #[trigger] list[k] == (
                raw_target(n, vx, vy, v, a, b).unwrap() as usize,
                direction_of(n, a, b) as usize,
            );
        assert(list.push(x)[k] == list[k]);
    }
}

/// The raw graph of `height` by `width` chunks of side `chunk_size`: one vertex
/// per pixel position at which a chunk can start, each holding `all_labels`, and
/// an edge from each vertex to each vertex whose chunk overlaps its own, in the
/// direction that numbers the overlap. Edges are listed by increasing direction.
pub fn create_raw_graph(all_labels: &LabelDomain, chunk_size: u32, size: (u32, u32)) -> (r: Graph)
    requires
        1 <= chunk_size <= 128,
        size.0 >= 1,
        size.1 >= 1,
        size.0 * chunk_size <= u32::MAX,
        size.1 * chunk_size <= u32::MAX,
        (size.1 * chunk_size - (chunk_size - 1)) * (size.0 * chunk_size - (chunk_size - 1)) <= u32::MAX,
    ensures
        ({
            let n = chunk_size as int;
            let vx = size.1 * chunk_size - (chunk_size - 1);
            let vy = size.0 * chunk_size - (chunk_size - 1);
            &&& r.vertices@.len() == vx * vy
            &&& r.edges@.len() == vx * vy
            &&& forall|v: int| 0 <= v < vx * vy ==> #[trigger] r.vertices@[v]@ == all_labels@
            &&& forall|v: int, k: int|
                0 <= v < vx * vy && 0 <= k < r.edges@[v]@.len() ==> edge_ok(n, vx, vy, v, #[trigger] r.edges@[v]@[k])
            &&& forall|v: int, a: int, b: int|
                0 <= v < vx * vy && partial_step(n, a, b) ==> #[trigger] listed(n, vx, vy, v, r.edges@[v]@, a, b)
            &&& forall|v: int, k1: int, k2: int|
                0 <= v < vx * vy && 0 <= k1 < k2 < r.edges@[v]@.len() ==> (#[trigger] r.edges@[v]@[k1]).1
                    < (#[trigger] r.edges@[v]@[k2]).1
        }),
{
    let n = chunk_size;
    let (height, width) = size;
    assert(width * n >= n && height * n >= n) by (nonlinear_arith)
        requires
            width >= 1,
            height >= 1,
            n >= 1,
    ;
    let vx = (width * n) - (n - 1);
    let vy = (height * n) - (n - 1);
    let total = vx * vy;
    let period = n * 2 - 1;
    let ghost ni = n as int;
    let ghost p = period as int;
    let ghost vxi = vx as int;
    let ghost vyi = vy as int;
    let mut vertices: Vec<LabelDomain> = Vec::new();
    let mut edges: Vec<Vec<(usize, usize)>> = Vec::new();
    let mut v: u32 = 0;
    while v < total
        invariant
            n == chunk_size,
            1 <= n <= 128,
            ni == n,
            period == 2 * n - 1,
            p == period,
            vxi == vx,
            vyi == vy,
            vx >= 1,
            vy >= 1,
            total == vx * vy,
            v <= total,
            vertices@.len() == v,
            edges@.len() == v,
            forall|w: int| 0 <= w < v ==> #[trigger] vertices@[w]@ == all_labels@,
            forall|w: int, k: int|
                0 <= w < v && 0 <= k < edges@[w]@.len() ==> edge_ok(ni, vxi, vyi, w, #[trigger] edges@[w]@[k]),
            forall|w: int, a: int, b: int|
                0 <= w < v && partial_step(ni, a, b) ==> #[trigger] listed(ni, vxi, vyi, w, edges@[w]@, a, b),
            forall|w: int, k1: int, k2: int|
                0 <= w < v && 0 <= k1 < k2 < edges@[w]@.len() ==> (#[trigger] edges@[w]@[k1]).1
                    < (#[trigger] edges@[w]@[k2]).1,
        decreases total - v,
    {
        let (x, y) = index_to_coords(v, vx);
        assert(y < vy) by (nonlinear_arith)
            requires
                y == v / vx,
                v < vx * vy,
                vx >= 1,
        ;
        let mut list: Vec<(usize, usize)> = Vec::new();
        let mut d: u32 = 0;
        let mut a: u32 = 0;
        while a < period
            invariant
                n == chunk_size,
                1 <= n <= 128,
                ni == n,
                period == 2 * n - 1,
                p == period,
                vxi == vx,
                vyi == vy,
                vx >= 1,
                total == vx * vy,
                v < total,
                x == v % vx,
                y == v / vx,
                x < vx,
                y < vy,
                a <= period,
                d == if a <= n - 1 { a * p } else { a * p - 1 },
                forall|k: int| 0 <= k < list@.len() ==> (#[trigger] list@[k]).1 < d,
                forall|k: int| 0 <= k < list@.len() ==> edge_ok(ni, vxi, vyi, v as int, #[trigger] list@[k]),
                forall|a2: int, b2: int|
                    a2 < a && partial_step(ni, a2, b2) ==> #[trigger] listed(ni, vxi, vyi, v as int, list@, a2, b2),
                forall|k1: int, k2: int|
                    0 <= k1 < k2 < list@.len() ==> (#[trigger] list@[k1]).1 < (#[trigger] list@[k2]).1,
            decreases period - a,
        {
            let mut b: u32 = 0;
            while b < period
                invariant
                    n == chunk_size,
                    1 <= n <= 128,
                    ni == n,
                    period == 2 * n - 1,
                    p == period,
                    vxi == vx,
                    vyi == vy,
                    vx >= 1,
                    total == vx * vy,
                    v < total,
                    x == v % vx,
                    y == v / vx,
                    x < vx,
                    y < vy,
                    a < period,
                    b <= period,
                    d == if a < n - 1 || (a == n - 1 && b <= n - 1) { a * p + b } else { a * p + b - 1 },
                    forall|k: int| 0 <= k < list@.len() ==> (#[trigger] list@[k]).1 < d,
                    forall|k: int| 0 <= k < list@.len() ==> edge_ok(ni, vxi, vyi, v as int, #[trigger] list@[k]),
                    forall|a2: int, b2: int|
                        (a2 < a || (a2 == a && b2 < b)) && partial_step(ni, a2, b2) ==> #[trigger] listed(
                            ni,
                            vxi,
                            vyi,
                            v as int,
                            list@,
                            a2,
                            b2,
                        ),
                    forall|k1: int, k2: int|
                        0 <= k1 < k2 < list@.len() ==> (#[trigger] list@[k1]).1 < (#[trigger] list@[k2]).1,
                decreases period - b,
            {
                if !(a == n - 1 && b == n - 1) {
                    proof {
                        lemma_direction_order(ni, a as int, b as int, p);
                    }
                    assert(a * p + b < p * p) by (nonlinear_arith)
                        requires
                            a < p,
                            b < p,
                    ;
                    assert(p * p <= 65536) by (nonlinear_arith)
                        requires
                            p <= 255,
                            p >= 1,
                    ;
                    assert(d as int == direction_of(ni, a as int, b as int));
                    let ox: i64 = x as i64 + b as i64 - (n as i64 - 1);
                    let oy: i64 = y as i64 + a as i64 - (n as i64 - 1);
                    if 0 <= ox && ox < vx as i64 && 0 <= oy && oy < vy as i64 {
                        assert(ox + oy * vx < vx * vy) by (nonlinear_arith)
                            requires
                                0 <= ox < vx,
                                0 <= oy < vy,
                        ;
                        let t = coords_to_index((ox as u32, oy as u32), vx);
                        let ghost before = list@;
                        let ghost e = (t as usize, d as usize);
                        list.push((t as usize, d as usize));
                        assert(partial_step(ni, a as int, b as int));
                        assert(raw_target(ni, vxi, vyi, v as int, a as int, b as int) == Some(t as int));
                        assert(edge_ok(ni, vxi, vyi, v as int, e));
                        assert forall|k: int| 0 <= k < list@.len() implies edge_ok(ni, vxi, vyi, v as int, #[trigger] list@[k]) by {
                            if k < before.len() {
                                assert(list@[k] == before[k]);
                            }
                        }
                        assert forall|a2: int, b2: int|
                            (a2 < a || (a2 == a && b2 < b + 1)) && partial_step(ni, a2, b2) implies #[trigger] listed(
                                ni,
                                vxi,
                                vyi,
                                v as int,
                                list@,
                                a2,
                                b2,
                            ) by {
                            if a2 == a && b2 == b {
                                assert(list@[before.len() as int] == e);
                            } else {
                                lemma_listed_push(ni, vxi, vyi, v as int, before, e, a2, b2);
                            }
                        }
                    } else {
                        assert(raw_target(ni, vxi, vyi, v as int, a as int, b as int) is None);
                    }
                    d = d + 1;
                }
                b = b + 1;
            }
            assert(a * p + p == (a + 1) * p) by (nonlinear_arith);
            a = a + 1;
        }
        vertices.push(all_labels.copy());
        let ghost eb = edges@;
        edges.push(list);
        assert forall|w: int, a: int, b: int|
            0 <= w < v + 1 && partial_step(ni, a, b) implies #[trigger] listed(ni, vxi, vyi, w, edges@[w]@, a, b) by {
            if w < v {
                assert(edges@[w] == eb[w]);
            }
        }
        assert forall|w: int, k: int|
            0 <= w < v + 1 && 0 <= k < edges@[w]@.len() implies edge_ok(ni, vxi, vyi, w, #[trigger] edges@[w]@[k]) by {
            if w < v {
                assert(edges@[w] == eb[w]);
            }
        }
        assert forall|w: int, k1: int, k2: int|
            0 <= w < v + 1 && 0 <= k1 < k2 < edges@[w]@.len() implies (#[trigger] edges@[w]@[k1]).1
                < (#[trigger] edges@[w]@[k2]).1 by {
            if w < v {
                assert(edges@[w] == eb[w]);
            }
        }
        assert forall|w: int| 0 <= w < v + 1 implies #[trigger] vertices@[w]@ == all_labels@ by {
        }
        v = v + 1;
    }
    Graph::new(vertices, edges)
}

/// `r` is the raw graph of a 3 by 3 block of chunks of side `n`, started with
/// `label` fixed at the middle vertex and `all` everywhere else, after
/// propagation alone has settled it.
pub open spec fn settled_block(all: Seq<u32>, rules: RuleTable, n: int, label: int, r: Graph) -> bool {
    let side = 2 * n + 1;
    let centre = (side * side - 1) / 2;
    let start = Seq::new(
        (side * side) as nat,
        |v: int| if v == centre { keep_only(all, label) } else { all },
    );
    &&& r.vertices@.len() == side * side
    &&& forall|v: int| 0 <= v < side * side ==> (#[trigger] r.vertices@[v])@.len() == all.len()
    &&& forall|v: int, k: int|
        0 <= v < side * side && 0 <= k < r.edges@[v]@.len() ==> edge_ok(n, side, side, v, #[trigger] r.edges@[v]@[k])
    &&& forall|v: int, a: int, b: int|
        0 <= v < side * side && partial_step(n, a, b) ==> #[trigger] listed(n, side, side, v, r.edges@[v]@, a, b)
    &&& exists|k: nat| {
        let t = #[trigger] settle(init_state(all, start, r.adj(), Seq::empty()), rules, k);
        &&& t.status != Status::Running || t.stack.len() == 0
        &&& r.doms() == t.doms
    }
}

/// Position of the `k`-th of the eight neighbour chunks (NW, N, NE, W, E, SW, S,
/// SE) on the raw graph of a 3 by 3 block of chunks of side `n`.
pub open spec fn neighbour_index(n: int, k: int) -> int {
    let dim = 2 * n + 1;
    if k == 0 {
        0
    } else if k == 1 {
        n
    } else if k == 2 {
        2 * n
    } else if k == 3 {
        dim * n
    } else if k == 4 {
        dim * n + 2 * n
    } else if k == 5 {
        2 * dim * n
    } else if k == 6 {
        2 * dim * n + n
    } else {
        2 * dim * n + 2 * n
    }
}

/// The rule that a settled block gives for the neighbour at position `v`: its
/// domain, unless no label is left there.
pub open spec fn block_rule(g: Graph, v: int) -> Option<Seq<u32>> {
    if weight(g.doms()[v]) > 0 {
        Some(g.doms()[v])
    } else {
        None
    }
}

/// `x` is the rule that some settled block around `l` gives for neighbour `k`.
pub open spec fn block_allows(all: Seq<u32>, rules: RuleTable, n: int, l: int, k: int, x: Option<Seq<u32>>) -> bool {
    exists|g: Graph| settled_block(all, rules, n, l, g) && x == block_rule(g, neighbour_index(n, k))
}

/// What chunk `label` allows around itself: the raw graph of a 3 by 3 block of
/// chunks with `label` fixed at the middle vertex and every other vertex open,
/// after propagation alone has settled it.
pub fn propagate_overlaps_2(all_labels: &LabelDomain, rules: &RuleTable, chunk_size: u32, label: usize) -> (r: Graph)
    requires
        rules.wf(),
        all_labels@.len() == rules.labels,
        label < rules.labels,
        1 <= chunk_size <= 128,
    ensures
        settled_block(all_labels@, *rules, chunk_size as int, label as int, r),
{
    let n = chunk_size;
    assert(3 * n * 3 * n <= u32::MAX) by (nonlinear_arith)
        requires
            n <= 128,
    ;
    assert((3 * n - (n - 1)) * (3 * n - (n - 1)) <= u32::MAX) by (nonlinear_arith)
        requires
            1 <= n <= 128,
    ;
    let mut raw = create_raw_graph(all_labels, chunk_size, (3, 3));
    let ghost side = 2 * n + 1;
    assert(3 * n - (n - 1) == side);
    assert(raw.vertices@.len() == side * side);
    assert(side * side >= 1) by (nonlinear_arith)
        requires
            side >= 1,
    ;
    let central = (raw.vertices.len() - 1) / 2;
    let mut dom = raw.vertices[central].copy();
    dom.determine(label);
    let ghost before = raw;
    raw.vertices.set(central, dom);
    let ghost start = Seq::new(
        (side * side) as nat,
        |v: int| if v == central { keep_only(all_labels@, label as int) } else { all_labels@ },
    );
    assert(raw.doms() =~= start);
    assert(raw.adj() == before.adj());
    assert(raw.wf(rules.labels as nat)) by {
        assert forall|v: int| 0 <= v < raw.vertices@.len() implies #[trigger] raw.vertices@[v]@.len() == rules.labels by {
            assert(raw.doms()[v] == raw.vertices@[v]@);
        }
        assert forall|v: int, k: int| 0 <= v < raw.edges@.len() && 0 <= k < raw.edges@[v]@.len() implies (
            #[trigger] raw.edges@[v]@[k]).0 < raw.vertices@.len() by {
            let e = raw.edges@[v]@[k];
            assert(edge_ok(n as int, side, side, v, e));
            let (a, b) = choose|a: int, b: int|
                #[trigger] partial_step(n as int, a, b) && raw_target(n as int, side, side, v, a, b) == Some(e.0 as int)
                    && e.1 == direction_of(n as int, a, b);
            let x = v % side + b - (n - 1);
            let y = v / side + a - (n - 1);
            assert(x + y * side < side * side) by (nonlinear_arith)
                requires
                    0 <= x < side,
                    0 <= y < side,
            ;
        }
    }
    let no_draws: Vec<u64> = Vec::new();
    assert(no_draws@ =~= Seq::<u64>::empty());
    let mut run = Collapse::new(all_labels, raw, no_draws);
    assert(run.state() == init_state(all_labels@, start, before.adj(), Seq::empty()));
    let ghost s0 = run.state();
    run.drain(rules);
    assert(run.out_graph.vertices@.len() == run.out_graph.edges@.len());
    assert(run.out_graph.adj().len() == run.out_graph.edges@.len());
    assert(forall|v: int| 0 <= v < run.out_graph.vertices@.len() ==> (#[trigger] run.out_graph.vertices@[v])@.len() == rules.labels);
    let mut g = Graph::new(Vec::new(), Vec::new());
    std::mem::swap(&mut g, &mut run.out_graph);
    assert(g.adj() == before.adj());
    assert(g.edges@.len() == before.edges@.len());
    assert forall|v: int| 0 <= v < g.edges@.len() implies #[trigger] g.edges@[v]@ == before.edges@[v]@ by {
        assert(g.adj()[v] == before.adj()[v]);
    }
    assert(g.vertices@.len() == side * side);
    g
}

/// The part of chunk `m` that grid step `(a, b)` covers.
pub open spec fn step_crop(n: int, m: Seq<Seq<u32>>, a: int, b: int) -> Seq<Seq<u32>> {
    crop(m, offset_pos(n, b), offset_pos(n, a), offset_len(n, b), offset_len(n, a))
}

/// Chunk `j`, placed at grid step `(a, b)` from chunk `i`, agrees with it where
/// the two overlap.
pub open spec fn agrees(n: int, chunks: Seq<Seq<Seq<u32>>>, i: int, j: int, a: int, b: int) -> bool {
    let p = 2 * n - 1;
    step_crop(n, chunks[i], a, b) == step_crop(n, chunks[j], p - 1 - a, p - 1 - b)
}

/// The overlap rule for chunk `i` at grid step `(a, b)`: absent if no chunk
/// agrees there, else one for each chunk that does.
pub open spec fn overlap_rule(n: int, chunks: Seq<Seq<Seq<u32>>>, i: int, a: int, b: int) -> Option<Seq<u32>> {
    if exists|j: int| 0 <= j < chunks.len() && #[trigger] agrees(n, chunks, i, j, a, b) {
        Some(Seq::new(chunks.len(), |j: int| if agrees(n, chunks, i, j, a, b) { 1u32 } else { 0u32 }))
    } else {
        None
    }
}

proof fn lemma_direction_range(n: int, a: int, b: int)
    requires
        n >= 1,
        partial_step(n, a, b),
    ensures
        0 <= direction_of(n, a, b) < (2 * n - 1) * (2 * n - 1) - 1,
{
    let p = 2 * n - 1;
    lemma_direction_order(n, a, b, p);
    assert(a * p + b < p * p && a * p + b >= 0) by (nonlinear_arith)
        requires
            0 <= a < p,
            0 <= b < p,
    ;
    if a * p + b == p * p - 1 {
        assert(a == p - 1 && b == p - 1) by (nonlinear_arith)
            requires
                a * p + b == p * p - 1,
                0 <= a < p,
                0 <= b < p,
        ;
        assert(a > n - 1);
    }
}

proof fn lemma_direction_injective(n: int, a: int, b: int, a2: int, b2: int)
    requires
        n >= 1,
        partial_step(n, a, b),
        partial_step(n, a2, b2),
        !(a == a2 && b == b2),
    ensures
        direction_of(n, a, b) != direction_of(n, a2, b2),
{
    let p = 2 * n - 1;
    lemma_direction_order(n, a, b, p);
    lemma_direction_order(n, a2, b2, p);
    assert(a * p + b != a2 * p + b2) by {
        if a * p + b == a2 * p + b2 {
            vstd::arithmetic::div_mod::lemma_fundamental_div_mod_converse_div(a * p + b, p, a, b);
            vstd::arithmetic::div_mod::lemma_fundamental_div_mod_converse_div(a2 * p + b2, p, a2, b2);
            vstd::arithmetic::div_mod::lemma_fundamental_div_mod_converse_mod(a * p + b, p, a, b);
            vstd::arithmetic::div_mod::lemma_fundamental_div_mod_converse_mod(a2 * p + b2, p, a2, b2);
        }
    }
    assert(a * p + b < p * p && a * p + b >= 0) by (nonlinear_arith)
        requires
            0 <= a < p,
            0 <= b < p,
    ;
    assert((n - 1) * p + (n - 1) < p * p) by (nonlinear_arith)
        requires
            n >= 1,
            p == 2 * n - 1,
    ;
    if a * p + b == (n - 1) * p + (n - 1) {
        vstd::arithmetic::div_mod::lemma_fundamental_div_mod_converse_div(a * p + b, p, a, b);
        vstd::arithmetic::div_mod::lemma_fundamental_div_mod_converse_div(a * p + b, p, n - 1, n - 1);
        vstd::arithmetic::div_mod::lemma_fundamental_div_mod_converse_mod(a * p + b, p, a, b);
        vstd::arithmetic::div_mod::lemma_fundamental_div_mod_converse_mod(a * p + b, p, n - 1, n - 1);
    }
    if a2 * p + b2 == (n - 1) * p + (n - 1) {
        vstd::arithmetic::div_mod::lemma_fundamental_div_mod_converse_div(a2 * p + b2, p, a2, b2);
        vstd::arithmetic::div_mod::lemma_fundamental_div_mod_converse_div(a2 * p + b2, p, n - 1, n - 1);
        vstd::arithmetic::div_mod::lemma_fundamental_div_mod_converse_mod(a2 * p + b2, p, a2, b2);
        vstd::arithmetic::div_mod::lemma_fundamental_div_mod_converse_mod(a2 * p + b2, p, n - 1, n - 1);
    }
}

/// The overlap rules of a set of square chunks of side `chunk_size`: for each
/// chunk and each partial overlap, the chunks that agree with it there.
pub fn overlaps(chunks: &Vec<Matrix>, chunk_size: u32) -> (r: RuleTable)
    requires
        1 <= chunk_size <= 128,
        forall|i: int| 0 <= i < chunks@.len() ==> (#[trigger] chunks@[i])@.len() == chunk_size && rows_of(
            chunks@[i]@,
            chunk_size as nat,
        ),
    ensures
        ({
            let n = chunk_size as int;
            let cs = Seq::new(chunks@.len(), |i: int| chunks@[i]@);
            &&& r.wf()
            &&& r.labels == chunks@.len()
            &&& forall|d: int, l: int| #[trigger] r.rule(d, l) is Some ==> d < (2 * n - 1) * (2 * n - 1) - 1
            &&& forall|i: int, a: int, b: int|
                0 <= i < chunks@.len() && partial_step(n, a, b) ==> #[trigger] r.rule(direction_of(n, a, b), i)
                    == overlap_rule(n, cs, i, a, b)
        }),
{
    let n = chunk_size;
    let period = n * 2 - 1;
    let count = chunks.len();
    let ghost ni = n as int;
    let ghost p = period as int;
    let ghost cs = Seq::new(chunks@.len(), |i: int| chunks@[i]@);
    let mut rules = RuleTable::new(count);
    assert(p * p >= 1) by (nonlinear_arith)
        requires
            p >= 1,
    ;
    let mut i: usize = 0;
    while i < count
        invariant
            n == chunk_size,
            1 <= n <= 128,
            ni == n,
            period == 2 * n - 1,
            p == period,
            count == chunks@.len(),
            cs == Seq::new(chunks@.len(), |i: int| chunks@[i]@),
            forall|k: int| 0 <= k < chunks@.len() ==> (#[trigger] chunks@[k])@.len() == chunk_size && rows_of(
                chunks@[k]@,
                chunk_size as nat,
            ),
            i <= count,
            rules.wf(),
            rules.labels == count,
            forall|d: int, l: int| #[trigger] rules.rule(d, l) is Some ==> d < p * p - 1,
            forall|l: int, a: int, b: int|
                0 <= l < count && partial_step(ni, a, b) ==> #[trigger] rules.rule(direction_of(ni, a, b), l)
                    == if l < i { overlap_rule(ni, cs, l, a, b) } else { None },
        decreases count - i,
    {
        let mut a: u32 = 0;
        while a < period
            invariant
                n == chunk_size,
                1 <= n <= 128,
                ni == n,
                period == 2 * n - 1,
                p == period,
                count == chunks@.len(),
                cs == Seq::new(chunks@.len(), |i: int| chunks@[i]@),
                forall|k: int| 0 <= k < chunks@.len() ==> (#[trigger] chunks@[k])@.len() == chunk_size && rows_of(
                    chunks@[k]@,
                    chunk_size as nat,
                ),
                i < count,
                a <= period,
                rules.wf(),
                rules.labels == count,
                forall|d: int, l: int| #[trigger] rules.rule(d, l) is Some ==> d < p * p - 1,
                forall|l: int, a2: int, b2: int|
                    0 <= l < count && partial_step(ni, a2, b2) ==> #[trigger] rules.rule(direction_of(ni, a2, b2), l)
                        == if l < i || (l == i && a2 < a) { overlap_rule(ni, cs, l, a2, b2) } else { None },
            decreases period - a,
        {
            let mut b: u32 = 0;
            while b < period
                invariant
                    n == chunk_size,
                    1 <= n <= 128,
                    ni == n,
                    period == 2 * n - 1,
                    p == period,
                    count == chunks@.len(),
                    cs == Seq::new(chunks@.len(), |i: int| chunks@[i]@),
                    forall|k: int| 0 <= k < chunks@.len() ==> (#[trigger] chunks@[k])@.len() == chunk_size && rows_of(
                        chunks@[k]@,
                        chunk_size as nat,
                    ),
                    i < count,
                    a < period,
                    b <= period,
                    rules.wf(),
                    rules.labels == count,
                    forall|d: int, l: int| #[trigger] rules.rule(d, l) is Some ==> d < p * p - 1,
                    forall|l: int, a2: int, b2: int|
                        0 <= l < count && partial_step(ni, a2, b2) ==> #[trigger] rules.rule(direction_of(ni, a2, b2), l)
                            == if l < i || (l == i && (a2 < a || (a2 == a && b2 < b))) {
                            overlap_rule(ni, cs, l, a2, b2)
                        } else {
                            None
                        },
                decreases period - b,
            {
                if !(a == n - 1 && b == n - 1) {
                    assert(partial_step(ni, a as int, b as int));
                    proof {
                        lemma_direction_range(ni, a as int, b as int);
                        lemma_direction_order(ni, a as int, b as int, p);
                    }
                    assert(a * p <= a * p + b && a * p + b < p * p && p * p <= 65025) by (nonlinear_arith)
                        requires
                            a < p,
                            b < p,
                            1 <= p <= 255,
                    ;
                    assert((n - 1) * p + (n - 1) < p * p) by (nonlinear_arith)
                        requires
                            n >= 1,
                            p == 2 * n - 1,
                    ;
                    let k = a * period + b;
                    let d = if k > (n - 1) * period + (n - 1) { k - 1 } else { k };
                    assert(d as int == direction_of(ni, a as int, b as int));
                    let ma = period - 1 - a;
                    let mb = period - 1 - b;
                    let px = if b < n { 0 } else { b - (n - 1) };
                    let py = if a < n { 0 } else { a - (n - 1) };
                    let lx = if b < n { b + 1 } else { 2 * n - 1 - b };
                    let ly = if a < n { a + 1 } else { 2 * n - 1 - a };
                    let qx = if mb < n { 0 } else { mb - (n - 1) };
                    let qy = if ma < n { 0 } else { ma - (n - 1) };
                    let mx = if mb < n { mb + 1 } else { 2 * n - 1 - mb };
                    let my = if ma < n { ma + 1 } else { 2 * n - 1 - ma };
                    assert(chunks@[i as int]@.len() == n && rows_of(chunks@[i as int]@, n as nat));
                    let mine = chunks[i].window((px as usize, py as usize), (lx as usize, ly as usize));
                    assert(mine@ == step_crop(ni, cs[i as int], a as int, b as int));
                    let mut dom = LabelDomain::empty(count);
                    let mut found = false;
                    let mut j: usize = 0;
                    while j < count
                        invariant
                            n == chunk_size,
                            1 <= n <= 128,
                            ni == n,
                            p == 2 * n - 1,
                            count == chunks@.len(),
                            cs == Seq::new(chunks@.len(), |i: int| chunks@[i]@),
                            forall|k: int| 0 <= k < chunks@.len() ==> (#[trigger] chunks@[k])@.len() == chunk_size
                                && rows_of(chunks@[k]@, chunk_size as nat),
                            i < count,
                            ma == p - 1 - a,
                            mb == p - 1 - b,
                            qx == offset_pos(ni, mb as int),
                            qy == offset_pos(ni, ma as int),
                            mx == offset_len(ni, mb as int),
                            my == offset_len(ni, ma as int),
                            qx <= n - 1,
                            qy <= n - 1,
                            mine@ == step_crop(ni, cs[i as int], a as int, b as int),
                            j <= count,
                            dom@ == Seq::new(count as nat, |j2: int| if j2 < j && agrees(ni, cs, i as int, j2, a as int, b as int) { 1u32 } else { 0u32 }),
                            found == exists|j2: int| 0 <= j2 < j && #[trigger] agrees(ni, cs, i as int, j2, a as int, b as int),
                        decreases count - j,
                    {
                        assert(chunks@[j as int]@.len() == n && rows_of(chunks@[j as int]@, n as nat));
                        let other = chunks[j].window((qx as usize, qy as usize), (mx as usize, my as usize));
                        assert(other@ == step_crop(ni, cs[j as int], ma as int, mb as int));
                        assert(agrees(ni, cs, i as int, j as int, a as int, b as int) == (mine@ == other@));
                        let ghost was = found;
                        if mine.same(&other) {
                            dom.counts.set(j, 1);
                            found = true;
                        }
                        proof {
                            if agrees(ni, cs, i as int, j as int, a as int, b as int) {
                                assert(0 <= j < j + 1);
                            } else if exists|j2: int| 0 <= j2 < j + 1 && #[trigger] agrees(ni, cs, i as int, j2, a as int, b as int) {
                                let w = choose|j2: int| 0 <= j2 < j + 1 && #[trigger] agrees(ni, cs, i as int, j2, a as int, b as int);
                                assert(w < j);
                            }
                        }
                        assert(dom@ =~= Seq::new(count as nat, |j2: int| if j2 < j + 1 && agrees(ni, cs, i as int, j2, a as int, b as int) { 1u32 } else { 0u32 }));
                        j = j + 1;
                    }
                    let ghost before = rules;
                    if found {
                        assert(dom@ =~= overlap_rule(ni, cs, i as int, a as int, b as int).unwrap());
                        rules.insert(d as usize, i, dom);
                    } else {
                        assert(overlap_rule(ni, cs, i as int, a as int, b as int) is None);
                    }
                    assert forall|l: int, a2: int, b2: int|
                        0 <= l < count && partial_step(ni, a2, b2) implies #[trigger] rules.rule(direction_of(ni, a2, b2), l)
                            == if l < i || (l == i && (a2 < a || (a2 == a && b2 < b + 1))) {
                            overlap_rule(ni, cs, l, a2, b2)
                        } else {
                            None
                        } by {
                        if !(a2 == a && b2 == b) {
                            lemma_direction_injective(ni, a as int, b as int, a2, b2);
                        }
                    }
                }
                b = b + 1;
            }
            a = a + 1;
        }
        i = i + 1;
    }
    rules
}

/// The rules between a chunk and its eight neighbouring chunks: for each label,
/// settle the raw graph of a 3 by 3 block around it and keep, for each of the
/// eight neighbour positions, the labels still possible there, unless none is.
pub fn prune_rules(all_labels: &LabelDomain, rules: &RuleTable, chunk_size: u32) -> (r: RuleTable)
    requires
        rules.wf(),
        all_labels@.len() == rules.labels,
        1 <= chunk_size <= 128,
    ensures
        r.wf(),
        r.labels == rules.labels,
        forall|d: int, l: int| #[trigger] r.rule(d, l) is Some ==> d < 8,
        forall|k: int, l: int|
            0 <= k < 8 && 0 <= l < rules.labels ==> block_allows(
                all_labels@,
                *rules,
                chunk_size as int,
                l,
                k,
                #[trigger] r.rule(k, l),
            ),
{
    let count = all_labels.len();
    let mut pruned = RuleTable::new(count);
    let n = chunk_size as usize;
    assert(2 * (2 * n + 1) * n + 2 * n <= usize::MAX && 2 * (2 * n + 1) * n + 2 * n < (2 * n + 1) * (2 * n + 1))
        by (nonlinear_arith)
        requires
            1 <= n <= 128,
    ;
    let ghost mut blocks: Seq<Graph> = Seq::empty();
    let mut label: usize = 0;
    while label < count
        invariant
            rules.wf(),
            count == rules.labels,
            all_labels@.len() == rules.labels,
            1 <= n <= 128,
            n == chunk_size,
            2 * (2 * n + 1) * n + 2 * n <= usize::MAX,
            2 * (2 * n + 1) * n + 2 * n < (2 * n + 1) * (2 * n + 1),
            label <= count,
            blocks.len() == label,
            pruned.wf(),
            pruned.labels == count,
            forall|d: int, l: int| #[trigger] pruned.rule(d, l) is Some ==> d < 8,
            forall|l: int| 0 <= l < label ==> settled_block(all_labels@, *rules, chunk_size as int, l, #[trigger] blocks[l]),
            forall|k: int, l: int|
                0 <= k < 8 && 0 <= l < count ==> #[trigger] pruned.rule(k, l) == if l < label {
                    block_rule(blocks[l], neighbour_index(chunk_size as int, k))
                } else {
                    None
                },
        decreases count - label,
    {
        let graph = propagate_overlaps_2(all_labels, rules, chunk_size, label);
        let idx = real_vertex_indexes(n);
        assert(n <= (2 * n + 1) * n && 2 * n <= (2 * n + 1) * n && (2 * n + 1) * n <= 2 * (2 * n + 1) * n)
            by (nonlinear_arith)
            requires
                n >= 1,
        ;
        assert(forall|q: int| 0 <= q < 8 ==> #[trigger] idx@[q] == neighbour_index(chunk_size as int, q));
        assert(forall|q: int| 0 <= q < 8 ==> #[trigger] idx@[q] <= 2 * (2 * n + 1) * n + 2 * n);
        let mut k: usize = 0;
        while k < 8
            invariant
                count == rules.labels,
                label < count,
                blocks.len() == label,
                idx@.len() == 8,
                forall|q: int| 0 <= q < 8 ==> #[trigger] idx@[q] < graph.vertices@.len(),
                forall|q: int| 0 <= q < 8 ==> #[trigger] idx@[q] == neighbour_index(chunk_size as int, q),
                forall|v: int| 0 <= v < graph.vertices@.len() ==> #[trigger] graph.vertices@[v]@.len() == count,
                k <= 8,
                pruned.wf(),
                pruned.labels == count,
                forall|d: int, l: int| #[trigger] pruned.rule(d, l) is Some ==> d < 8,
                forall|k2: int, l: int|
                    0 <= k2 < 8 && 0 <= l < count ==> #[trigger] pruned.rule(k2, l) == if l < label {
                        block_rule(blocks[l], neighbour_index(chunk_size as int, k2))
                    } else if l == label && k2 < k {
                        block_rule(graph, neighbour_index(chunk_size as int, k2))
                    } else {
                        None
                    },
            decreases 8 - k,
        {
            let set = graph.vertices[idx[k]].copy();
            assert(graph.doms()[idx@[k as int] as int] == set@);
            if set.total_weight() > 0 {
                pruned.insert(k, label, set);
            }
            k = k + 1;
        }
        proof {
            blocks = blocks.push(graph);
            assert(blocks[label as int] == graph);
        }
        assert forall|l: int| 0 <= l < label + 1 implies settled_block(all_labels@, *rules, chunk_size as int, l, #[trigger] blocks[l]) by {
            if l < label {
                assert(blocks[l] == blocks.drop_last()[l]);
            }
        }
        label = label + 1;
    }
    assert(count == rules.labels);
    assert forall|k: int, l: int|
        0 <= k < 8 && 0 <= l < rules.labels implies block_allows(
            all_labels@,
            *rules,
            chunk_size as int,
            l,
            k,
            #[trigger] pruned.rule(k, l),
        ) by {
        assert(l < label);
        assert(pruned.rule(k, l) == block_rule(blocks[l], neighbour_index(chunk_size as int, k)));
        assert(settled_block(all_labels@, *rules, chunk_size as int, l, blocks[l]));
    }
    pruned
}

/// Reversal into a new vector.
pub trait PureReverse<T> {
    /// The items in reverse order.
    fn pure_reverse(self) -> Vec<T>;
}

impl<T> PureReverse<T> for Vec<T> {
    fn pure_reverse(self) -> (r: Vec<T>)
        ensures
            r@ == self@.reverse(),
    {
        let mut v = self;
        let ghost orig = v@;
        let mut r: Vec<T> = Vec::new();
        while v.len() > 0
            invariant
                v@ == orig.subrange(0, v@.len() as int),
                r@ == orig.subrange(v@.len() as int, orig.len() as int).reverse(),
                v@.len() <= orig.len(),
            decreases v@.len(),
        {
            let ghost k = v@.len();
            match v.pop() {
                Some(x) => {
                    r.push(x);
                    assert(r@ =~= orig.subrange(k - 1, orig.len() as int).reverse());
                },
                None => {},
            }
            assert(v@ =~= orig.subrange(0, v@.len() as int));
        }
        assert(orig.subrange(0, orig.len() as int) =~= orig);
        r
    }
}

/// The raw rules are the overlap rules themselves: nothing is left to derive.
pub fn raw_rules() {
}

} // verus!
