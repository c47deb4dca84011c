//! Outlines of the regions of a bitmap.
//!
//! Every side between a pixel that is set and one that is not is an edge that
//! runs with the set pixel on its right, along rows that count downwards. At every
//! grid point as many edges come in as go out, so that following edges from any
//! point leads back to it.

use vstd::arithmetic::div_mod::*;
use vstd::prelude::*;

verus! {

/// A directed side between two grid points: right, down, left or up from
/// `(x, y)` for the directions 0 to 3.
pub struct Edge {
    pub x: int,
    pub y: int,
    pub d: int,
}

pub open spec fn step_x(d: int) -> int {
    if d == 0 {
        1
    } else if d == 2 {
        -1
    } else {
        0
    }
}

pub open spec fn step_y(d: int) -> int {
    if d == 1 {
        1
    } else if d == 3 {
        -1
    } else {
        0
    }
}

/// Whether a pixel is set; none outside the bitmap is.
pub open spec fn pixel(mask: Seq<u8>, w: int, h: int, x: int, y: int) -> bool {
    0 <= x < w && 0 <= y < h && mask[y * w + x] != 0
}

impl Edge {
    pub open spec fn source(self) -> (int, int) {
        (self.x, self.y)
    }

    pub open spec fn target(self) -> (int, int) {
        (self.x + step_x(self.d), self.y + step_y(self.d))
    }

    /// The pixel to the right of the edge.
    pub open spec fn inner(self) -> (int, int) {
        if self.d == 0 {
            (self.x, self.y)
        } else if self.d == 1 {
            (self.x - 1, self.y)
        } else if self.d == 2 {
            (self.x - 1, self.y - 1)
        } else {
            (self.x, self.y - 1)
        }
    }

    /// The pixel to the left of the edge.
    pub open spec fn outer(self) -> (int, int) {
        if self.d == 0 {
            (self.x, self.y - 1)
        } else if self.d == 1 {
            (self.x, self.y)
        } else if self.d == 2 {
            (self.x - 1, self.y)
        } else {
            (self.x - 1, self.y - 1)
        }
    }
}

/// Whether an edge bounds a region: the pixel to its right is set, the one to its
/// left is not.
pub open spec fn is_boundary(mask: Seq<u8>, w: int, h: int, e: Edge) -> bool {
    &&& 0 <= e.d < 4
    &&& pixel(mask, w, h, e.inner().0, e.inner().1)
    &&& !pixel(mask, w, h, e.outer().0, e.outer().1)
}

/// Twice the signed area of the triangle of the origin and two points.
#[verifier::opaque]
pub open spec fn cross(a: (int, int), b: (int, int)) -> int {
    a.0 * b.1 - a.1 * b.0
}

/// Twice the signed area that the first `n` sides of a polygon enclose with the
/// origin.
pub open spec fn area_upto(points: Seq<(int, int)>, n: int) -> int
    decreases n,
{
    if n <= 0 {
        0
    } else {
        area_upto(points, n - 1) + cross(points[n - 1], points[n % points.len() as int])
    }
}

/// Twice the signed area of a polygon.
pub open spec fn doubled_area(points: Seq<(int, int)>) -> int {
    area_upto(points, points.len() as int)
}

/// Whether a closed line of points changes its direction at point `i`.
#[verifier::opaque]
pub open spec fn turns(points: Seq<(int, int)>, i: int) -> bool {
    let n = points.len() as int;
    let before = points[(i + n - 1) % n];
    let at = points[i];
    let after = points[(i + 1) % n];
    (at.0 - before.0) * (after.1 - at.1) - (at.1 - before.1) * (after.0 - at.0) != 0
}

/// The points among the first `n` where a closed line turns.
pub open spec fn turns_upto(points: Seq<(int, int)>, n: int) -> Seq<(int, int)>
    decreases n,
{
    if n <= 0 {
        Seq::empty()
    } else if turns(points, n - 1) {
        turns_upto(points, n - 1).push(points[n - 1])
    } else {
        turns_upto(points, n - 1)
    }
}

/// A closed line without the points where it goes straight on.
pub open spec fn corners(points: Seq<(int, int)>) -> Seq<(int, int)> {
    if points.len() <= 2 {
        points
    } else {
        turns_upto(points, points.len() as int)
    }
}

/// Edges that lead from one to the next and from the last to the first.
pub open spec fn is_loop(trail: Seq<Edge>) -> bool {
    &&& trail.len() > 0
    &&& forall|i: int|
        #![trigger trail[i]]
        0 <= i < trail.len() - 1 ==> trail[i].target() == trail[i + 1].source()
    &&& trail.last().target() == trail[0].source()
}

/// The points that a trail of edges starts from.
pub open spec fn points_of(trail: Seq<Edge>) -> Seq<(int, int)> {
    trail.map_values(|e: Edge| e.source())
}

/// All edges of a list of trails.
pub open spec fn edges_of(loops: Seq<Seq<Edge>>) -> Seq<Edge>
    decreases loops.len(),
{
    if loops.len() == 0 {
        Seq::empty()
    } else {
        edges_of(loops.drop_last()) + loops.last()
    }
}

/// The boundary of a bitmap as loops: every edge of the boundary is on one loop,
/// once.
pub open spec fn is_outline(loops: Seq<Seq<Edge>>, mask: Seq<u8>, w: int, h: int) -> bool {
    &&& forall|k: int| 0 <= k < loops.len() ==> is_loop(#[trigger] loops[k])
    &&& edges_of(loops).no_duplicates()
    &&& forall|e: Edge| #[trigger] edges_of(loops).contains(e) <==> is_boundary(mask, w, h, e)
}

pub open spec fn size_of(a: int) -> int {
    if a < 0 {
        -a
    } else {
        a
    }
}

/// Twice the area of the corners of a loop.
pub open spec fn loop_area(trail: Seq<Edge>) -> int {
    size_of(doubled_area(corners(points_of(trail))))
}

/// `contour` is the corners of a loop of greatest area, if there is one with an
/// area.
pub open spec fn is_largest(contour: Option<Seq<(int, int)>>, loops: Seq<Seq<Edge>>) -> bool {
    match contour {
        None => forall|k: int| 0 <= k < loops.len() ==> loop_area(#[trigger] loops[k]) == 0,
        Some(points) => {
            &&& exists|k: int|
                0 <= k < loops.len() && points == corners(points_of(#[trigger] loops[k]))
            &&& size_of(doubled_area(points)) > 0
            &&& forall|k: int|
                0 <= k < loops.len() ==> loop_area(#[trigger] loops[k]) <= size_of(
                    doubled_area(points),
                )
        },
    }
}

/// Index of an edge among all edges between the grid points of a bitmap of width
/// `w`.
pub open spec fn slot(e: Edge, w: int) -> int {
    (e.y * (w + 1) + e.x) * 4 + e.d
}

/// The edge of an index.
pub open spec fn edge_at(i: int, w: int) -> Edge {
    Edge { x: (i / 4) % (w + 1), y: (i / 4) / (w + 1), d: i % 4 }
}

pub open spec fn slots(w: int, h: int) -> int {
    (w + 1) * (h + 1) * 4
}

/// Whether an edge starts from a grid point of the bitmap.
pub open spec fn on_grid(e: Edge, w: int, h: int) -> bool {
    0 <= e.x <= w && 0 <= e.y <= h && 0 <= e.d < 4
}

proof fn lemma_slot(e: Edge, w: int, h: int)
    requires
        on_grid(e, w, h),
        w >= 0,
        h >= 0,
    ensures
        0 <= slot(e, w) < slots(w, h),
        edge_at(slot(e, w), w) == e,
{
    let v = e.y * (w + 1) + e.x;
    assert(0 <= v < (w + 1) * (h + 1)) by (nonlinear_arith)
        requires
            v == e.y * (w + 1) + e.x,
            0 <= e.y <= h,
            0 <= e.x <= w,
            w >= 0,
            h >= 0,
    ;
    lemma_fundamental_div_mod_converse(slot(e, w), 4, v, e.d);
    lemma_fundamental_div_mod_converse(v, w + 1, e.y, e.x);
}

proof fn lemma_edge_at(i: int, w: int, h: int)
    requires
        0 <= i < slots(w, h),
        w >= 0,
        h >= 0,
    ensures
        on_grid(edge_at(i, w), w, h),
        slot(edge_at(i, w), w) == i,
{
    let v = i / 4;
    let e = edge_at(i, w);
    lemma_fundamental_div_mod(i, 4);
    lemma_fundamental_div_mod(v, w + 1);
    lemma_mod_bound(v, w + 1);
    assert(v < (w + 1) * (h + 1));
    assert(0 <= e.y <= h) by (nonlinear_arith)
        requires
            v == (w + 1) * e.y + e.x,
            0 <= v < (w + 1) * (h + 1),
            0 <= e.x < w + 1,
    ;
    assert((w + 1) * e.y == e.y * (w + 1)) by (nonlinear_arith);
}

proof fn lemma_boundary_on_grid(mask: Seq<u8>, w: int, h: int, e: Edge)
    requires
        is_boundary(mask, w, h, e),
    ensures
        on_grid(e, w, h),
        0 <= e.target().0 <= w,
        0 <= e.target().1 <= h,
{
}

/// Whether an edge is among the edges that are left.
pub open spec fn left(flags: Seq<bool>, w: int, h: int, e: Edge) -> bool {
    on_grid(e, w, h) && flags[slot(e, w)]
}

pub open spec fn one_if(b: bool) -> int {
    if b {
        1
    } else {
        0
    }
}

/// How many of the edges that are left go out from a grid point.
pub open spec fn going_out(flags: Seq<bool>, w: int, h: int, x: int, y: int) -> int {
    one_if(left(flags, w, h, Edge { x, y, d: 0 })) + one_if(
        left(flags, w, h, Edge { x, y, d: 1 }),
    ) + one_if(left(flags, w, h, Edge { x, y, d: 2 })) + one_if(
        left(flags, w, h, Edge { x, y, d: 3 }),
    )
}

/// How many of the edges that are left come in to a grid point.
pub open spec fn coming_in(flags: Seq<bool>, w: int, h: int, x: int, y: int) -> int {
    one_if(left(flags, w, h, Edge { x: x - 1, y, d: 0 })) + one_if(
        left(flags, w, h, Edge { x, y: y - 1, d: 1 }),
    ) + one_if(left(flags, w, h, Edge { x: x + 1, y, d: 2 })) + one_if(
        left(flags, w, h, Edge { x, y: y + 1, d: 3 }),
    )
}

/// One more edge goes out from `to` than comes in, and one more comes in to `from`
/// than goes out, where these differ; all other points are even.
pub open spec fn is_open(
    flags: Seq<bool>,
    w: int,
    h: int,
    from: (int, int),
    to: (int, int),
) -> bool {
    forall|x: int, y: int|
        #![trigger going_out(flags, w, h, x, y)]
        going_out(flags, w, h, x, y) - coming_in(flags, w, h, x, y) == one_if((x, y) == to)
            - one_if((x, y) == from)
}

proof fn lemma_left_after(flags: Seq<bool>, w: int, h: int, e: Edge, other: Edge)
    requires
        w >= 0,
        h >= 0,
        flags.len() == slots(w, h),
        on_grid(e, w, h),
    ensures
        left(flags.update(slot(e, w), false), w, h, other) == (left(flags, w, h, other) && other
            != e),
{
    lemma_slot(e, w, h);
    if on_grid(other, w, h) {
        lemma_slot(other, w, h);
    }
}

/// Taking the edge that goes out from `to` moves the odd point along it.
proof fn lemma_take(flags: Seq<bool>, w: int, h: int, from: (int, int), e: Edge)
    requires
        w >= 0,
        h >= 0,
        flags.len() == slots(w, h),
        left(flags, w, h, e),
        is_open(flags, w, h, from, e.source()),
    ensures
        is_open(flags.update(slot(e, w), false), w, h, from, e.target()),
{
    let after = flags.update(slot(e, w), false);
    assert forall|x: int, y: int|
        #![trigger going_out(after, w, h, x, y)]
        going_out(after, w, h, x, y) - coming_in(after, w, h, x, y) == one_if(
            (x, y) == e.target(),
        ) - one_if((x, y) == from) by {
        lemma_left_after(flags, w, h, e, Edge { x, y, d: 0 });
        lemma_left_after(flags, w, h, e, Edge { x, y, d: 1 });
        lemma_left_after(flags, w, h, e, Edge { x, y, d: 2 });
        lemma_left_after(flags, w, h, e, Edge { x, y, d: 3 });
        lemma_left_after(flags, w, h, e, Edge { x: x - 1, y, d: 0 });
        lemma_left_after(flags, w, h, e, Edge { x, y: y - 1, d: 1 });
        lemma_left_after(flags, w, h, e, Edge { x: x + 1, y, d: 2 });
        lemma_left_after(flags, w, h, e, Edge { x, y: y + 1, d: 3 });
        assert(going_out(flags, w, h, x, y) - coming_in(flags, w, h, x, y) == one_if(
            (x, y) == e.source(),
        ) - one_if((x, y) == from));
        assert(e.d == 0 || e.d == 1 || e.d == 2 || e.d == 3);
        assert(going_out(after, w, h, x, y) == going_out(flags, w, h, x, y) - one_if(
            (x, y) == e.source(),
        ));
        assert(coming_in(after, w, h, x, y) == coming_in(flags, w, h, x, y) - one_if(
            (x, y) == e.target(),
        ));
    }
}

/// The flags of the boundary edges of a bitmap.
pub open spec fn boundary_flags(mask: Seq<u8>, w: int, h: int) -> Seq<bool> {
    Seq::new(slots(w, h) as nat, |i: int| is_boundary(mask, w, h, edge_at(i, w)))
}

proof fn lemma_boundary_left(mask: Seq<u8>, w: int, h: int, e: Edge)
    requires
        w >= 0,
        h >= 0,
    ensures
        left(boundary_flags(mask, w, h), w, h, e) == is_boundary(mask, w, h, e),
{
    if on_grid(e, w, h) {
        lemma_slot(e, w, h);
    }
}

/// At every grid point as many boundary edges come in as go out.
proof fn lemma_boundary_even(mask: Seq<u8>, w: int, h: int, p: (int, int))
    requires
        w >= 0,
        h >= 0,
    ensures
        is_open(boundary_flags(mask, w, h), w, h, p, p),
{
    let flags = boundary_flags(mask, w, h);
    assert forall|x: int, y: int|
        #![trigger going_out(flags, w, h, x, y)]
        going_out(flags, w, h, x, y) - coming_in(flags, w, h, x, y) == one_if((x, y) == p)
            - one_if((x, y) == p) by {
        lemma_boundary_left(mask, w, h, Edge { x, y, d: 0 });
        lemma_boundary_left(mask, w, h, Edge { x, y, d: 1 });
        lemma_boundary_left(mask, w, h, Edge { x, y, d: 2 });
        lemma_boundary_left(mask, w, h, Edge { x, y, d: 3 });
        lemma_boundary_left(mask, w, h, Edge { x: x - 1, y, d: 0 });
        lemma_boundary_left(mask, w, h, Edge { x, y: y - 1, d: 1 });
        lemma_boundary_left(mask, w, h, Edge { x: x + 1, y, d: 2 });
        lemma_boundary_left(mask, w, h, Edge { x, y: y + 1, d: 3 });
        let ne = pixel(mask, w, h, x, y - 1);
        let se = pixel(mask, w, h, x, y);
        let sw = pixel(mask, w, h, x - 1, y);
        let nw = pixel(mask, w, h, x - 1, y - 1);
        assert(going_out(flags, w, h, x, y) == one_if(se && !ne) + one_if(sw && !se) + one_if(
            nw && !sw,
        ) + one_if(ne && !nw));
        assert(coming_in(flags, w, h, x, y) == one_if(sw && !nw) + one_if(nw && !ne) + one_if(
            ne && !se,
        ) + one_if(se && !sw));
    }
}

/// Twice the signed area that an edge encloses with the origin.
pub open spec fn edge_area(e: Edge) -> int {
    cross(e.source(), e.target())
}

/// The sum of `edge_area` over the flagged edges among the first `n`.
pub open spec fn flagged_area(flags: Seq<bool>, w: int, n: int) -> int
    decreases n,
{
    if n <= 0 {
        0
    } else {
        flagged_area(flags, w, n - 1) + if flags[n - 1] {
            edge_area(edge_at(n - 1, w))
        } else {
            0
        }
    }
}

proof fn lemma_flag_update(flags: Seq<bool>, w: int, n: int, i: int, b: bool)
    requires
        0 <= i < flags.len(),
        0 <= n <= flags.len(),
    ensures
        flagged_area(flags.update(i, b), w, n) == flagged_area(flags, w, n) + if i < n {
            (one_if(b) - one_if(flags[i])) * edge_area(edge_at(i, w))
        } else {
            0
        },
    decreases n,
{
    if n > 0 {
        lemma_flag_update(flags, w, n - 1, i, b);
        if i == n - 1 {
            let a = edge_area(edge_at(i, w));
            assert((one_if(b) - one_if(flags[i])) * a == one_if(b) * a - one_if(flags[i]) * a)
                by (nonlinear_arith);
            assert(one_if(b) * a == if b {
                a
            } else {
                0
            }) by (nonlinear_arith);
            assert(one_if(flags[i]) * a == if flags[i] {
                a
            } else {
                0
            }) by (nonlinear_arith);
        }
    }
}

proof fn lemma_no_flags(flags: Seq<bool>, w: int, n: int)
    requires
        0 <= n <= flags.len(),
        forall|i: int| 0 <= i < n ==> !#[trigger] flags[i],
    ensures
        flagged_area(flags, w, n) == 0,
    decreases n,
{
    if n > 0 {
        lemma_no_flags(flags, w, n - 1);
    }
}

/// How many of the first `n` pixels are set.
pub open spec fn set_count(mask: Seq<u8>, n: int) -> nat
    decreases n,
{
    if n <= 0 {
        0
    } else {
        set_count(mask, n - 1) + if mask[n - 1] != 0 {
            1nat
        } else {
            0nat
        }
    }
}

/// The bitmap with its first `k` pixels alone.
pub open spec fn upto(mask: Seq<u8>, k: int) -> Seq<u8> {
    Seq::new(
        mask.len(),
        |i: int|
            if i < k {
                mask[i]
            } else {
                0
            },
    )
}

proof fn lemma_pixel_after(mask: Seq<u8>, w: int, h: int, px: int, py: int, v: u8, x: int, y: int)
    requires
        0 <= px < w,
        0 <= py < h,
        mask.len() >= w * h,
        v != 0,
    ensures
        0 <= py * w + px < w * h,
        pixel(mask.update(py * w + px, v), w, h, x, y) == (pixel(mask, w, h, x, y) || (x, y) == (
            px,
            py,
        )),
{
    let at = py * w + px;
    assert(0 <= at < w * h) by (nonlinear_arith)
        requires
            at == py * w + px,
            0 <= px < w,
            0 <= py < h,
    ;
    lemma_fundamental_div_mod_converse(at, w, py, px);
    if 0 <= x < w && 0 <= y < h {
        let i = y * w + x;
        lemma_fundamental_div_mod_converse(i, w, y, x);
        assert(0 <= i < w * h) by (nonlinear_arith)
            requires
                i == y * w + x,
                0 <= x < w,
                0 <= y < h,
        ;
    }
}

/// One side of a pixel that becomes set: the edge of the pixel appears, or that of
/// the neighbour goes.
proof fn lemma_side(
    flags: Seq<bool>,
    w: int,
    h: int,
    own: Edge,
    other: Edge,
    neighbour: bool,
)
    requires
        w >= 0,
        h >= 0,
        flags.len() == slots(w, h),
        on_grid(own, w, h),
        on_grid(other, w, h),
        own != other,
        own.source() == other.target(),
        own.target() == other.source(),
        !flags[slot(own, w)],
        flags[slot(other, w)] == neighbour,
    ensures
        flagged_area(
            flags.update(slot(own, w), !neighbour).update(slot(other, w), false),
            w,
            slots(w, h),
        ) == flagged_area(flags, w, slots(w, h)) + edge_area(own),
{
    lemma_slot(own, w, h);
    lemma_slot(other, w, h);
    let first = flags.update(slot(own, w), !neighbour);
    lemma_flag_update(flags, w, slots(w, h), slot(own, w), !neighbour);
    lemma_flag_update(first, w, slots(w, h), slot(other, w), false);
    assert(first[slot(other, w)] == neighbour);
    let (a, b) = own.source();
    let (c, d) = own.target();
    reveal(cross);
    assert(c * b - d * a == -(a * d - b * c)) by (nonlinear_arith);
    assert(edge_area(other) == -edge_area(own));
    let area = edge_area(own);
    assert((one_if(!neighbour) - 0) * area == if neighbour {
        0
    } else {
        area
    }) by (nonlinear_arith);
    assert((0 - one_if(neighbour)) * (-area) == if neighbour {
        area
    } else {
        0
    }) by (nonlinear_arith);
}

/// The edges of the sides of a pixel: right along its top, down, left and up.
pub open spec fn own_edge(px: int, py: int, d: int) -> Edge {
    if d == 0 {
        Edge { x: px, y: py, d: 0 }
    } else if d == 1 {
        Edge { x: px + 1, y: py, d: 1 }
    } else if d == 2 {
        Edge { x: px + 1, y: py + 1, d: 2 }
    } else {
        Edge { x: px, y: py + 1, d: 3 }
    }
}

/// The same sides as edges of the neighbours.
pub open spec fn other_edge(px: int, py: int, d: int) -> Edge {
    if d == 0 {
        Edge { x: px + 1, y: py, d: 2 }
    } else if d == 1 {
        Edge { x: px + 1, y: py + 1, d: 3 }
    } else if d == 2 {
        Edge { x: px, y: py + 1, d: 0 }
    } else {
        Edge { x: px, y: py, d: 1 }
    }
}

/// Whether the neighbour of a pixel on a side is set.
spec fn neighbour(mask: Seq<u8>, w: int, h: int, px: int, py: int, d: int) -> bool {
    let (x, y) = own_edge(px, py, d).outer();
    pixel(mask, w, h, x, y)
}

/// The flags once the first `n` sides of a pixel that becomes set are changed.
spec fn sides_changed(mask: Seq<u8>, w: int, h: int, px: int, py: int, n: int) -> Seq<bool>
    decreases n,
{
    if n <= 0 {
        boundary_flags(mask, w, h)
    } else {
        sides_changed(mask, w, h, px, py, n - 1).update(
            slot(own_edge(px, py, n - 1), w),
            !neighbour(mask, w, h, px, py, n - 1),
        ).update(slot(other_edge(px, py, n - 1), w), false)
    }
}

/// Which flags differ once some sides are changed.
proof fn lemma_sides_changed(mask: Seq<u8>, w: int, h: int, px: int, py: int, n: int, e: Edge)
    requires
        0 <= px < w,
        0 <= py < h,
        0 <= n <= 4,
        on_grid(e, w, h),
    ensures
        sides_changed(mask, w, h, px, py, n).len() == slots(w, h),
        left(sides_changed(mask, w, h, px, py, n), w, h, e) == if exists|k: int|
            0 <= k < n && e == #[trigger] own_edge(px, py, k) {
            !neighbour(mask, w, h, px, py, (choose|k: int| 0 <= k < n && e == #[trigger] own_edge(px, py, k)))
        } else if exists|k: int| 0 <= k < n && e == #[trigger] other_edge(px, py, k) {
            false
        } else {
            is_boundary(mask, w, h, e)
        },
    decreases n,
{
    assert(0 <= slots(w, h)) by (nonlinear_arith)
        requires
            slots(w, h) == (w + 1) * (h + 1) * 4,
            w >= 0,
            h >= 0,
    ;
    lemma_slot(e, w, h);
    if n > 0 {
        lemma_sides_changed(mask, w, h, px, py, n - 1, e);
        let own = own_edge(px, py, n - 1);
        let other = other_edge(px, py, n - 1);
        lemma_slot(own, w, h);
        lemma_slot(other, w, h);
        if e == own {
            assert(own_edge(px, py, n - 1) == e);
            let k = choose|k: int| 0 <= k < n && e == #[trigger] own_edge(px, py, k);
            assert(k == n - 1);
        } else if e == other {
            assert(other_edge(px, py, n - 1) == e);
            assert forall|k: int| 0 <= k < n implies e != #[trigger] own_edge(px, py, k) by {}
        } else {
            if exists|k: int| 0 <= k < n - 1 && e == #[trigger] own_edge(px, py, k) {
                let k0 = choose|k: int| 0 <= k < n - 1 && e == #[trigger] own_edge(px, py, k);
                assert(0 <= k0 < n && e == own_edge(px, py, k0));
                let k1 = choose|k: int| 0 <= k < n && e == #[trigger] own_edge(px, py, k);
                assert(k0 == k1);
            } else {
                assert forall|k: int| 0 <= k < n implies e != #[trigger] own_edge(px, py, k) by {}
                if exists|k: int| 0 <= k < n - 1 && e == #[trigger] other_edge(px, py, k) {
                    let k0 = choose|k: int| 0 <= k < n - 1 && e == #[trigger] other_edge(px, py, k);
                    assert(0 <= k0 < n && e == other_edge(px, py, k0));
                }
            }
        }
    }
}

/// Setting a pixel changes the flags of its sides alone.
proof fn lemma_pixel_flags(mask: Seq<u8>, w: int, h: int, px: int, py: int, v: u8)
    requires
        0 <= px < w,
        0 <= py < h,
        mask.len() >= w * h,
        v != 0,
        !pixel(mask, w, h, px, py),
    ensures
        boundary_flags(mask.update(py * w + px, v), w, h) == sides_changed(
            mask,
            w,
            h,
            px,
            py,
            4,
        ),
{
    let after = mask.update(py * w + px, v);
    let f = boundary_flags(after, w, h);
    let g = sides_changed(mask, w, h, px, py, 4);
    assert(0 <= slots(w, h)) by (nonlinear_arith)
        requires
            slots(w, h) == (w + 1) * (h + 1) * 4,
            w >= 0,
            h >= 0,
    ;
    lemma_sides_changed(mask, w, h, px, py, 4, Edge { x: 0, y: 0, d: 0 });
    assert forall|i: int| 0 <= i < slots(w, h) implies f[i] == g[i] by {
        let e = edge_at(i, w);
        lemma_edge_at(i, w, h);
        lemma_sides_changed(mask, w, h, px, py, 4, e);
        lemma_pixel_after(mask, w, h, px, py, v, e.inner().0, e.inner().1);
        lemma_pixel_after(mask, w, h, px, py, v, e.outer().0, e.outer().1);
        if e.inner() == (px, py) {
            assert(e == own_edge(px, py, e.d));
            let k = choose|k: int| 0 <= k < 4 && e == #[trigger] own_edge(px, py, k);
            assert(k == e.d);
        } else {
            assert forall|k: int| 0 <= k < 4 implies e != #[trigger] own_edge(px, py, k) by {}
            if e.outer() == (px, py) {
                assert(e == other_edge(px, py, (e.d + 2) % 4));
            } else {
                assert forall|k: int| 0 <= k < 4 implies e != #[trigger] other_edge(px, py, k) by {}
            }
        }
    }
    assert(f == g);
}

/// Changing the sides of a pixel adds their areas.
proof fn lemma_sides_area(mask: Seq<u8>, w: int, h: int, px: int, py: int, n: int)
    requires
        0 <= px < w,
        0 <= py < h,
        0 < n <= 4,
        !pixel(mask, w, h, px, py),
    ensures
        flagged_area(sides_changed(mask, w, h, px, py, n), w, slots(w, h)) == flagged_area(
            sides_changed(mask, w, h, px, py, n - 1),
            w,
            slots(w, h),
        ) + edge_area(own_edge(px, py, n - 1)),
{
    let own = own_edge(px, py, n - 1);
    let other = other_edge(px, py, n - 1);
    lemma_sides_changed(mask, w, h, px, py, n - 1, own);
    lemma_sides_changed(mask, w, h, px, py, n - 1, other);
    assert forall|k: int| 0 <= k < n - 1 implies own != #[trigger] own_edge(px, py, k) by {}
    assert forall|k: int| 0 <= k < n - 1 implies own != #[trigger] other_edge(px, py, k) by {}
    assert forall|k: int| 0 <= k < n - 1 implies other != #[trigger] own_edge(px, py, k) by {}
    assert forall|k: int| 0 <= k < n - 1 implies other != #[trigger] other_edge(px, py, k) by {}
    assert(other.inner() == own.outer());
    lemma_side(
        sides_changed(mask, w, h, px, py, n - 1),
        w,
        h,
        own,
        other,
        neighbour(mask, w, h, px, py, n - 1),
    );
}

/// Setting a pixel adds one pixel to the area of the boundary.
proof fn lemma_pixel_area(mask: Seq<u8>, w: int, h: int, px: int, py: int, v: u8)
    requires
        0 <= px < w,
        0 <= py < h,
        mask.len() >= w * h,
        v != 0,
        !pixel(mask, w, h, px, py),
    ensures
        flagged_area(boundary_flags(mask.update(py * w + px, v), w, h), w, slots(w, h))
            == flagged_area(boundary_flags(mask, w, h), w, slots(w, h)) + 2,
{
    lemma_pixel_flags(mask, w, h, px, py, v);
    lemma_sides_area(mask, w, h, px, py, 1);
    lemma_sides_area(mask, w, h, px, py, 2);
    lemma_sides_area(mask, w, h, px, py, 3);
    lemma_sides_area(mask, w, h, px, py, 4);
    assert(sides_changed(mask, w, h, px, py, 0) == boundary_flags(mask, w, h));
    reveal(cross);
    let a = edge_area(own_edge(px, py, 0));
    let b = edge_area(own_edge(px, py, 1));
    let c = edge_area(own_edge(px, py, 2));
    let d = edge_area(own_edge(px, py, 3));
    assert(a + b + c + d == 2) by (nonlinear_arith)
        requires
            a == px * py - py * (px + 1),
            b == (px + 1) * (py + 1) - py * (px + 1),
            c == (px + 1) * (py + 1) - (py + 1) * px,
            d == px * py - (py + 1) * px,
    ;
}

/// The boundary of a bitmap encloses its set pixels.
proof fn lemma_boundary_area(mask: Seq<u8>, w: int, h: int, k: int)
    requires
        w >= 0,
        h >= 0,
        mask.len() >= w * h,
        0 <= k <= w * h,
    ensures
        flagged_area(boundary_flags(upto(mask, k), w, h), w, slots(w, h)) == 2 * set_count(
            mask,
            k,
        ),
    decreases k,
{
    assert(0 <= slots(w, h)) by (nonlinear_arith)
        requires
            slots(w, h) == (w + 1) * (h + 1) * 4,
            w >= 0,
            h >= 0,
    ;
    if k == 0 {
        let flags = boundary_flags(upto(mask, 0), w, h);
        assert forall|i: int| 0 <= i < slots(w, h) implies !#[trigger] flags[i] by {
            let (x, y) = edge_at(i, w).inner();
            if 0 <= x < w && 0 <= y < h {
                assert(0 <= y * w + x < w * h) by (nonlinear_arith)
                    requires
                        0 <= x < w,
                        0 <= y < h,
                ;
            }
        }
        lemma_no_flags(flags, w, slots(w, h));
    } else {
        lemma_boundary_area(mask, w, h, k - 1);
        let before = upto(mask, k - 1);
        let after = upto(mask, k);
        if mask[k - 1] != 0 {
            assert(w > 0) by (nonlinear_arith)
                requires
                    0 < k <= w * h,
                    w >= 0,
                    h >= 0,
            ;
            let px = (k - 1) % w;
            let py = (k - 1) / w;
            lemma_fundamental_div_mod(k - 1, w);
            lemma_mod_bound(k - 1, w);
            assert(w * py == py * w) by (nonlinear_arith);
            assert(0 <= py < h) by (nonlinear_arith)
                requires
                    k - 1 == w * py + px,
                    0 <= k - 1 < w * h,
                    0 <= px < w,
            ;
            assert(after == before.update(k - 1, mask[k - 1]));
            lemma_pixel_area(before, w, h, px, py, mask[k - 1]);
        } else {
            assert(after == before);
        }
    }
}

/// The triangle of the origin and two points along a direction.
proof fn lemma_along(a: (int, int), s: (int, int), n: int)
    ensures
        cross(a, (a.0 + n * s.0, a.1 + n * s.1)) == n * (a.0 * s.1 - a.1 * s.0),
{
    reveal(cross);
    let (x, y) = a;
    let (p, q) = s;
    assert(x * (y + n * q) == x * y + n * (x * q)) by (nonlinear_arith);
    assert(y * (x + n * p) == x * y + n * (y * p)) by (nonlinear_arith);
    assert(n * (x * q - y * p) == n * (x * q) - n * (y * p)) by (nonlinear_arith);
}

/// Points of a straight line add up.
proof fn lemma_straight(a: (int, int), s: (int, int), m: int, n: int)
    ensures
        cross(a, (a.0 + m * s.0, a.1 + m * s.1)) + cross(
            (a.0 + m * s.0, a.1 + m * s.1),
            (a.0 + (m + n) * s.0, a.1 + (m + n) * s.1),
        ) == cross(a, (a.0 + (m + n) * s.0, a.1 + (m + n) * s.1)),
{
    let (x, y) = a;
    let (p, q) = s;
    let b = (x + m * p, y + m * q);
    lemma_along(a, s, m);
    lemma_along(a, s, m + n);
    lemma_along(b, s, n);
    assert((m + n) * p == m * p + n * p && (m + n) * q == m * q + n * q) by (nonlinear_arith);
    assert((x + m * p) * q - (y + m * q) * p == x * q - y * p) by (nonlinear_arith);
    let c = x * q - y * p;
    assert(m * c + n * c == (m + n) * c) by (nonlinear_arith);
}

/// The open line through the first points of two polygons encloses the same.
proof fn lemma_area_prefix(a: Seq<(int, int)>, b: Seq<(int, int)>, n: int)
    requires
        0 <= n < a.len(),
        n < b.len(),
        forall|i: int| 0 <= i <= n ==> a[i] == b[i],
    ensures
        area_upto(a, n) == area_upto(b, n),
    decreases n,
{
    if n > 0 {
        lemma_area_prefix(a, b, n - 1);
        lemma_small_mod(n as nat, a.len());
        lemma_small_mod(n as nat, b.len());
    }
}

/// Two boundary edges in a row do not go back and forth.
proof fn lemma_no_return(mask: Seq<u8>, w: int, h: int, e: Edge, next: Edge)
    requires
        is_boundary(mask, w, h, e),
        is_boundary(mask, w, h, next),
        e.target() == next.source(),
    ensures
        e.d - next.d != 2,
        next.d - e.d != 2,
{
    if e.d - next.d == 2 || next.d - e.d == 2 {
        assert(next.inner() == e.outer());
    }
}

/// A loop of boundary edges.
spec fn is_boundary_loop(trail: Seq<Edge>, mask: Seq<u8>, w: int, h: int) -> bool {
    is_loop(trail) && forall|i: int|
        0 <= i < trail.len() ==> is_boundary(mask, w, h, #[trigger] trail[i])
}

/// Point `i` of a loop, where point `n` is the first one again.
spec fn point_at(trail: Seq<Edge>, i: int) -> (int, int) {
    if i < trail.len() {
        trail[i].source()
    } else {
        trail[0].source()
    }
}

#[verifier::opaque]
spec fn along(a: (int, int), d: int, n: int) -> (int, int) {
    (a.0 + n * step_x(d), a.1 + n * step_y(d))
}

proof fn lemma_turn(trail: Seq<Edge>, mask: Seq<u8>, w: int, h: int, i: int)
    requires
        is_boundary_loop(trail, mask, w, h),
        0 <= i < trail.len(),
    ensures
        point_at(trail, i + 1) == trail[i].target(),
        turns(points_of(trail), i) == (trail[i].d != trail[if i == 0 {
            trail.len() - 1
        } else {
            i - 1
        }].d),
{
    reveal(turns);
    let n = trail.len() as int;
    let points = points_of(trail);
    let before = if i == 0 {
        n - 1
    } else {
        i - 1
    };
    assert(trail[i].target() == point_at(trail, i + 1)) by {
        if i < n - 1 {
            assert(trail[i].target() == trail[i + 1].source());
        }
    }
    assert(trail[before].target() == trail[i].source()) by {
        if i > 0 {
            assert(trail[i - 1].target() == trail[i - 1 + 1].source());
        }
    }
    assert((i + n - 1) % n == before) by {
        if i == 0 {
            lemma_small_mod((n - 1) as nat, n as nat);
        } else {
            lemma_mod_add_multiples_vanish(i - 1, n);
            lemma_small_mod((i - 1) as nat, n as nat);
        }
    }
    assert(points[(i + 1) % n] == point_at(trail, i + 1)) by {
        if i + 1 < n {
            lemma_small_mod((i + 1) as nat, n as nat);
        } else {
            lemma_mod_self_0(n);
        }
    }
    lemma_no_return(mask, w, h, trail[before], trail[i]);
    let d1 = trail[before].d;
    let d2 = trail[i].d;
    assert(points[before] == trail[before].source());
    assert(points[i] == trail[i].source());
    assert(points[i].0 - points[before].0 == step_x(d1));
    assert(points[i].1 - points[before].1 == step_y(d1));
    let after = points[(i + 1) % n];
    assert(after.0 - points[i].0 == step_x(d2));
    assert(after.1 - points[i].1 == step_y(d2));
    assert(d1 == 0 || d1 == 1 || d1 == 2 || d1 == 3);
    assert(d2 == 0 || d2 == 1 || d2 == 2 || d2 == 3);
    assert((step_x(d1) * step_y(d2) - step_y(d1) * step_x(d2) != 0) == (d1 != d2));
}

/// Points along a direction add up.
proof fn lemma_run(a: (int, int), d: int, m: int, n: int)
    ensures
        cross(a, along(a, d, m)) + cross(along(a, d, m), along(a, d, m + n)) == cross(
            a,
            along(a, d, m + n),
        ),
        along(along(a, d, m), d, n) == along(a, d, m + n),
        along(a, d, 0) == a,
        cross(a, a) == 0,
{
    reveal(along);
    let s = (step_x(d), step_y(d));
    lemma_straight(a, s, m, n);
    assert(m * s.0 + n * s.0 == (m + n) * s.0 && m * s.1 + n * s.1 == (m + n) * s.1)
        by (nonlinear_arith);
    assert(0 * s.0 == 0 && 0 * s.1 == 0);
    reveal(cross);
    assert(a.0 * a.1 - a.1 * a.0 == 0) by (nonlinear_arith);
}

proof fn lemma_one_step(e: Edge)
    ensures
        e.target() == along(e.source(), e.d, 1),
{
    reveal(along);
}

/// What is known of the first `i` points of a loop: `first` and `last` are the
/// first and the last turn among them.
spec fn runs(trail: Seq<Edge>, i: int, first: int, last: int) -> bool {
    let points = points_of(trail);
    let kept = turns_upto(points, i);
    let start = point_at(trail, 0);
    let d0 = trail[0].d;
    if kept.len() == 0 {
        &&& area_upto(points, i) == cross(start, point_at(trail, i))
        &&& point_at(trail, i) == along(start, d0, i)
        &&& i > 0 ==> trail[i - 1].d == d0 && !turns(points, 0)
    } else {
        &&& 0 <= first <= last < i
        &&& kept[0] == point_at(trail, first)
        &&& kept.last() == point_at(trail, last)
        &&& point_at(trail, first) == along(start, d0, first)
        &&& first > 0 ==> !turns(points, 0)
        &&& trail[i - 1].d == trail[last].d
        &&& point_at(trail, i) == along(point_at(trail, last), trail[last].d, i - last)
        &&& area_upto(points, i) == cross(start, kept[0]) + area_upto(kept, kept.len() - 1) + cross(
            kept.last(),
            point_at(trail, i),
        )
    }
}

proof fn lemma_runs_on(
    trail: Seq<Edge>,
    mask: Seq<u8>,
    w: int,
    h: int,
    i: int,
    first: int,
    last: int,
)
    requires
        is_boundary_loop(trail, mask, w, h),
        0 < i <= trail.len(),
        runs(trail, i - 1, first, last),
        !turns(points_of(trail), i - 1),
    ensures
        runs(trail, i, first, last),
{
    let points = points_of(trail);
    let kept = turns_upto(points, i - 1);
    let start = point_at(trail, 0);
    lemma_next_area(trail, mask, w, h, i);
    lemma_turn(trail, mask, w, h, i - 1);
    lemma_one_step(trail[i - 1]);
    assert(turns_upto(points, i) == kept);
    if kept.len() == 0 {
        lemma_run(start, trail[0].d, i - 1, 1);
    } else {
        lemma_run(point_at(trail, last), trail[last].d, i - 1 - last, 1);
    }
}

proof fn lemma_runs_turn(
    trail: Seq<Edge>,
    mask: Seq<u8>,
    w: int,
    h: int,
    i: int,
    first: int,
    last: int,
)
    requires
        is_boundary_loop(trail, mask, w, h),
        0 < i <= trail.len(),
        runs(trail, i - 1, first, last),
        turns(points_of(trail), i - 1),
    ensures
        runs(
            trail,
            i,
            if turns_upto(points_of(trail), i - 1).len() == 0 {
                i - 1
            } else {
                first
            },
            i - 1,
        ),
{
    let points = points_of(trail);
    let kept = turns_upto(points, i - 1);
    let all = kept.push(points[i - 1]);
    let start = point_at(trail, 0);
    let here = point_at(trail, i - 1);
    lemma_next_area(trail, mask, w, h, i);
    lemma_turn(trail, mask, w, h, i - 1);
    lemma_one_step(trail[i - 1]);
    assert(turns_upto(points, i) == all);
    assert(points[i - 1] == here);
    lemma_run(here, trail[i - 1].d, 0, 1);
    if kept.len() == 0 {
        assert(area_upto(all, 0) == 0);
    } else {
        let m = kept.len() as int;
        lemma_area_prefix(all, kept, m - 1);
        lemma_small_mod(m as nat, all.len());
        assert(area_upto(all, m) == area_upto(kept, m - 1) + cross(kept.last(), here));
        assert(all[0] == kept[0]);
    }
}

proof fn lemma_next_area(trail: Seq<Edge>, mask: Seq<u8>, w: int, h: int, i: int)
    requires
        is_boundary_loop(trail, mask, w, h),
        0 < i <= trail.len(),
    ensures
        area_upto(points_of(trail), i) == area_upto(points_of(trail), i - 1) + cross(
            point_at(trail, i - 1),
            point_at(trail, i),
        ),
{
    let n = trail.len() as int;
    let points = points_of(trail);
    assert(points[i % n] == point_at(trail, i)) by {
        if i < n {
            lemma_small_mod(i as nat, n as nat);
        } else {
            lemma_mod_self_0(n);
        }
    }
}

/// The first and the last turn among the first `i` points of a loop.
proof fn lemma_runs(trail: Seq<Edge>, mask: Seq<u8>, w: int, h: int, i: int) -> (r: (int, int))
    requires
        is_boundary_loop(trail, mask, w, h),
        0 <= i <= trail.len(),
    ensures
        runs(trail, i, r.0, r.1),
    decreases i,
{
    if i == 0 {
        lemma_run(point_at(trail, 0), trail[0].d, 0, 0);
        (-1, -1)
    } else {
        let (first, last) = lemma_runs(trail, mask, w, h, i - 1);
        if turns(points_of(trail), i - 1) {
            lemma_runs_turn(trail, mask, w, h, i, first, last);
            (
                if turns_upto(points_of(trail), i - 1).len() == 0 {
                    i - 1
                } else {
                    first
                },
                i - 1,
            )
        } else {
            lemma_runs_on(trail, mask, w, h, i, first, last);
            (first, last)
        }
    }
}

/// Leaving out the points where a loop goes straight on keeps its area.
proof fn lemma_corner_area(trail: Seq<Edge>, mask: Seq<u8>, w: int, h: int)
    requires
        is_boundary_loop(trail, mask, w, h),
    ensures
        doubled_area(corners(points_of(trail))) == doubled_area(points_of(trail)),
{
    let points = points_of(trail);
    let n = trail.len() as int;
    if n > 2 {
        let kept = turns_upto(points, n);
        let start = point_at(trail, 0);
        let d = trail[0].d;
        let (first, last) = lemma_runs(trail, mask, w, h, n);
        lemma_turn(trail, mask, w, h, 0);
        assert(point_at(trail, n) == start);
        if kept.len() == 0 {
            reveal(along);
            assert(d == 0 || d == 1 || d == 2 || d == 3);
            assert(n * 1 == n && n * (-1) == -n && n * 0 == 0);
        } else {
            let m = kept.len() as int;
            lemma_mod_self_0(m);
            assert(doubled_area(kept) == area_upto(kept, m - 1) + cross(kept.last(), kept[0]));
            lemma_run(start, d, first, 0);
            if first > 0 {
                lemma_run(point_at(trail, last), d, n - last, first);
            }
        }
    }
}

/// Points over mathematical integers.
pub open spec fn places(points: Seq<(i32, i32)>) -> Seq<(int, int)> {
    points.map_values(|p: (i32, i32)| (p.0 as int, p.1 as int))
}

/// Leaves out the points where a closed line goes straight on.
pub fn remove_collinear_i32(points: Vec<(i32, i32)>) -> (out: Vec<(i32, i32)>)
    ensures
        places(out@) == corners(places(points@)),
{
    let n: usize = points.len();
    if n <= 2 {
        return points;
    }
    let ghost line = places(points@);
    let mut out: Vec<(i32, i32)> = Vec::new();
    let mut i: usize = 0;
    assert(places(out@) == Seq::<(int, int)>::empty());
    while i < n
        invariant
            2 < n == points@.len(),
            i <= n,
            line == places(points@),
            places(out@) == turns_upto(line, i as int),
        decreases n - i,
    {
        let before: usize = if i == 0 {
            n - 1
        } else {
            i - 1
        };
        let after: usize = if i + 1 == n {
            0
        } else {
            i + 1
        };
        proof {
            reveal(turns);
            if i == 0 {
                lemma_small_mod((n - 1) as nat, n as nat);
            } else {
                lemma_mod_add_multiples_vanish(i - 1, n as int);
                lemma_small_mod((i - 1) as nat, n as nat);
            }
            if i + 1 < n {
                lemma_small_mod((i + 1) as nat, n as nat);
            } else {
                lemma_mod_self_0(n as int);
            }
            assert(line[(i + n - 1) % (n as int)] == line[before as int]);
            assert(line[(i + 1) % (n as int)] == line[after as int]);
        }
        let (x0, y0) = points[before];
        let (x1, y1) = points[i];
        let (x2, y2) = points[after];
        let dx1: i128 = x1 as i128 - x0 as i128;
        let dy1: i128 = y1 as i128 - y0 as i128;
        let dx2: i128 = x2 as i128 - x1 as i128;
        let dy2: i128 = y2 as i128 - y1 as i128;
        assert(-0x1_0000_0000_0000_0000 <= dx1 * dy2 <= 0x1_0000_0000_0000_0000 &&
            -0x1_0000_0000_0000_0000 <= dy1 * dx2 <= 0x1_0000_0000_0000_0000) by (nonlinear_arith)
            requires
                -0x1_0000_0000 <= dx1 <= 0x1_0000_0000,
                -0x1_0000_0000 <= dy1 <= 0x1_0000_0000,
                -0x1_0000_0000 <= dx2 <= 0x1_0000_0000,
                -0x1_0000_0000 <= dy2 <= 0x1_0000_0000,
        ;
        let ghost prev = out@;
        if dx1 * dy2 - dy1 * dx2 != 0 {
            out.push((x1, y1));
            assert(places(out@) == places(prev).push(line[i as int]));
        }
        i = i + 1;
    }
    out
}

/// Twice the signed area of a polygon.
pub fn signed_area_i32(points: &Vec<(i32, i32)>) -> (doubled: i128)
    ensures
        doubled == doubled_area(places(points@)),
        doubled > i128::MIN,
{
    let n: usize = points.len();
    let ghost line = places(points@);
    let mut doubled: i128 = 0;
    let mut i: usize = 0;
    while i < n
        invariant
            i <= n == points@.len(),
            line == places(points@),
            doubled == area_upto(line, i as int),
            -0x8000_0000_0000_0000 * i <= doubled <= 0x8000_0000_0000_0000 * i,
        decreases n - i,
    {
        let next: usize = if i + 1 == n {
            0
        } else {
            i + 1
        };
        proof {
            reveal(cross);
            if i + 1 < n {
                lemma_small_mod((i + 1) as nat, n as nat);
            } else {
                lemma_mod_self_0(n as int);
            }
            assert(line[(i + 1) % (n as int)] == line[next as int]);
        }
        let (x0, y0) = points[i];
        let (x1, y1) = points[next];
        let a: i64 = x0 as i64;
        let b: i64 = y0 as i64;
        let c: i64 = x1 as i64;
        let d: i64 = y1 as i64;
        assert(-0x4000_0000_0000_0000 <= a * d <= 0x4000_0000_0000_0000 && -0x4000_0000_0000_0000
            <= b * c <= 0x4000_0000_0000_0000) by (nonlinear_arith)
            requires
                -0x8000_0000 <= a <= 0x7fff_ffff,
                -0x8000_0000 <= b <= 0x7fff_ffff,
                -0x8000_0000 <= c <= 0x7fff_ffff,
                -0x8000_0000 <= d <= 0x7fff_ffff,
        ;
        doubled = doubled + ((a * d) as i128 - (b * c) as i128);
        i = i + 1;
        assert(area_upto(line, i as int) == area_upto(line, i - 1) + cross(
            line[i - 1],
            line[next as int],
        ));
    }
    doubled
}

/// The sum of `edge_area` over a trail.
spec fn trail_area(trail: Seq<Edge>) -> int
    decreases trail.len(),
{
    if trail.len() == 0 {
        0
    } else {
        trail_area(trail.drop_last()) + edge_area(trail.last())
    }
}

proof fn lemma_trail_area(trail: Seq<Edge>, n: int)
    requires
        is_loop(trail),
        0 <= n <= trail.len(),
    ensures
        area_upto(points_of(trail), n) == trail_area(trail.take(n)),
    decreases n,
{
    if n > 0 {
        lemma_trail_area(trail, n - 1);
        let len = trail.len() as int;
        assert(trail.take(n).drop_last() == trail.take(n - 1));
        assert(trail[n - 1].target() == points_of(trail)[n % len]) by {
            if n < len {
                lemma_small_mod(n as nat, len as nat);
                assert(trail[n - 1].target() == trail[n - 1 + 1].source());
            } else {
                lemma_mod_self_0(len);
            }
        }
    }
}

/// How many of the first `n` flags are up.
spec fn flag_count(flags: Seq<bool>, n: int) -> nat
    decreases n,
{
    if n <= 0 {
        0
    } else {
        flag_count(flags, n - 1) + if flags[n - 1] {
            1nat
        } else {
            0nat
        }
    }
}

proof fn lemma_flag_down(flags: Seq<bool>, n: int, i: int)
    requires
        0 <= n <= flags.len(),
        0 <= i < flags.len(),
        flags[i],
    ensures
        flag_count(flags.update(i, false), n) == flag_count(flags, n) - if i < n {
            1int
        } else {
            0int
        },
    decreases n,
{
    if n > 0 {
        lemma_flag_down(flags, n - 1, i);
    }
}

fn is_set(mask: &Vec<u8>, w: usize, h: usize, x: usize, y: usize, dx: usize, dy: usize) -> (set:
    bool)
    requires
        mask@.len() >= w * h,
        dx <= 1,
        dy <= 1,
    ensures
        set == pixel(mask@, w as int, h as int, x - dx, y - dy),
{
    if x < dx || y < dy {
        return false;
    }
    let px: usize = x - dx;
    let py: usize = y - dy;
    if px >= w || py >= h {
        return false;
    }
    let total: usize = mask.len();
    assert(py * w + px < w * h && py * w <= w * h) by (nonlinear_arith)
        requires
            px < w,
            py < h,
    ;
    mask[py * w + px] != 0
}

/// Flags the boundary edges of a bitmap.
fn flag_boundary(mask: &Vec<u8>, w: usize, h: usize) -> (flags: Vec<bool>)
    requires
        mask@.len() >= w * h,
        w <= i32::MAX,
        h <= i32::MAX,
    ensures
        flags@ == boundary_flags(mask@, w as int, h as int),
{
    let ghost wi = w as int;
    let ghost hi = h as int;
    let ghost all = boundary_flags(mask@, wi, hi);
    let mut flags: Vec<bool> = Vec::new();
    let mut y: usize = 0;
    assert(0 <= slots(wi, hi)) by (nonlinear_arith)
        requires
            slots(wi, hi) == (wi + 1) * (hi + 1) * 4,
            wi >= 0,
            hi >= 0,
    ;
    while y <= h
        invariant
            mask@.len() >= w * h,
            wi == w,
            hi == h,
            w <= i32::MAX,
            h <= i32::MAX,
            all == boundary_flags(mask@, wi, hi),
            all.len() == slots(wi, hi),
            y <= h + 1,
            flags@.len() == y * (wi + 1) * 4,
            flags@.len() <= all.len(),
            flags@ == all.take(flags@.len() as int),
        decreases h + 1 - y,
    {
        let mut x: usize = 0;
        while x <= w
            invariant
                mask@.len() >= w * h,
                wi == w,
                hi == h,
                w <= i32::MAX,
                h <= i32::MAX,
                all == boundary_flags(mask@, wi, hi),
                all.len() == slots(wi, hi),
                y <= h,
                x <= w + 1,
                flags@.len() == (y * (wi + 1) + x) * 4,
                flags@.len() <= all.len(),
                flags@ == all.take(flags@.len() as int),
            decreases w + 1 - x,
        {
            let nw: bool = is_set(mask, w, h, x, y, 1, 1);
            let ne: bool = is_set(mask, w, h, x, y, 0, 1);
            let sw: bool = is_set(mask, w, h, x, y, 1, 0);
            let se: bool = is_set(mask, w, h, x, y, 0, 0);
            let ghost base = flags@.len() as int;
            proof {
                lemma_slot(Edge { x: x as int, y: y as int, d: 0 }, wi, hi);
                lemma_slot(Edge { x: x as int, y: y as int, d: 1 }, wi, hi);
                lemma_slot(Edge { x: x as int, y: y as int, d: 2 }, wi, hi);
                lemma_slot(Edge { x: x as int, y: y as int, d: 3 }, wi, hi);
            }
            flags.push(se && !ne);
            flags.push(sw && !se);
            flags.push(nw && !sw);
            flags.push(ne && !nw);
            x = x + 1;
            assert(flags@ == all.take(base + 4));
        }
        y = y + 1;
        assert((y - 1) * (wi + 1) + (wi + 1) == y * (wi + 1)) by (nonlinear_arith);
    }
    assert(flags@.len() == slots(wi, hi)) by (nonlinear_arith)
        requires
            flags@.len() == y * (wi + 1) * 4,
            y == hi + 1,
            slots(wi, hi) == (wi + 1) * (hi + 1) * 4,
    ;
    assert(all.take(all.len() as int) == all);
    flags
}

/// Takes the first edge that is left, in the order of the directions, out of a grid
/// point.
fn pop_edge(flags: &mut Vec<bool>, w: usize, h: usize, x: usize, y: usize) -> (d: Option<u8>)
    requires
        old(flags)@.len() == slots(w as int, h as int),
        x <= w,
        y <= h,
    ensures
        match d {
            Some(d) => {
                let e = Edge { x: x as int, y: y as int, d: d as int };
                &&& left(old(flags)@, w as int, h as int, e)
                &&& final(flags)@ == old(flags)@.update(slot(e, w as int), false)
                &&& forall|k: int|
                    0 <= k < d ==> !#[trigger] left(
                        old(flags)@,
                        w as int,
                        h as int,
                        Edge { x: x as int, y: y as int, d: k },
                    )
            },
            None => {
                &&& final(flags)@ == old(flags)@
                &&& going_out(old(flags)@, w as int, h as int, x as int, y as int) == 0
            },
        },
{
    let total: usize = flags.len();
    let ghost wi = w as int;
    let ghost hi = h as int;
    proof {
        lemma_slot(Edge { x: x as int, y: y as int, d: 3 }, wi, hi);
        assert(y * (wi + 1) <= slot(Edge { x: x as int, y: y as int, d: 3 }, wi));
        assert(w + 1 <= slots(wi, hi)) by (nonlinear_arith)
            requires
                slots(wi, hi) == (wi + 1) * (hi + 1) * 4,
                wi == w,
                hi == h,
        ;
    }
    let base: usize = (y * (w + 1) + x) * 4;
    let mut d: u8 = 0;
    while d < 4
        invariant
            d <= 4,
            flags@ == old(flags)@,
            total == flags@.len() == slots(wi, hi),
            wi == w,
            hi == h,
            x <= w,
            y <= h,
            base == (y * (wi + 1) + x) * 4,
            base + 4 <= total,
            forall|k: int|
                0 <= k < d ==> !#[trigger] left(
                    flags@,
                    wi,
                    hi,
                    Edge { x: x as int, y: y as int, d: k },
                ),
        decreases 4 - d,
    {
        let at: usize = base + d as usize;
        assert(at == slot(Edge { x: x as int, y: y as int, d: d as int }, wi));
        if flags[at] {
            assert(left(flags@, wi, hi, Edge { x: x as int, y: y as int, d: d as int }));
            flags.set(at, false);
            return Some(d);
        }
        assert(!left(flags@, wi, hi, Edge { x: x as int, y: y as int, d: d as int }));
        d = d + 1;
    }
    None
}

/// Every edge that is left bounds a region.
spec fn all_boundary(flags: Seq<bool>, mask: Seq<u8>, w: int, h: int) -> bool {
    forall|e: Edge| #[trigger] left(flags, w, h, e) ==> is_boundary(mask, w, h, e)
}

/// `before` is the edges of `after` and those of a trail, which are others.
spec fn split_off(before: Seq<bool>, after: Seq<bool>, w: int, h: int, trail: Seq<Edge>) -> bool {
    &&& trail.no_duplicates()
    &&& forall|e: Edge|
        #![trigger left(before, w, h, e)]
        #![trigger left(after, w, h, e)]
        #![trigger trail.contains(e)]
        left(before, w, h, e) == (left(after, w, h, e) || trail.contains(e)) && !(left(
            after,
            w,
            h,
            e,
        ) && trail.contains(e))
}

proof fn lemma_split_more(
    before: Seq<bool>,
    after: Seq<bool>,
    w: int,
    h: int,
    trail: Seq<Edge>,
    e: Edge,
)
    requires
        w >= 0,
        h >= 0,
        after.len() == slots(w, h),
        split_off(before, after, w, h, trail),
        left(after, w, h, e),
    ensures
        split_off(before, after.update(slot(e, w), false), w, h, trail.push(e)),
{
    let next = after.update(slot(e, w), false);
    let longer = trail.push(e);
    assert(!trail.contains(e));
    assert forall|i: int, j: int|
        0 <= i < longer.len() && 0 <= j < longer.len() && i != j implies longer[i] != longer[j] by {
        if i == trail.len() {
            assert(trail.contains(trail[j]));
        } else if j == trail.len() {
            assert(trail.contains(trail[i]));
        }
    }
    assert forall|other: Edge|
        #![trigger left(before, w, h, other)]
        #![trigger left(next, w, h, other)]
        #![trigger longer.contains(other)]
        left(before, w, h, other) == (left(next, w, h, other) || longer.contains(other)) && !(left(
            next,
            w,
            h,
            other,
        ) && longer.contains(other)) by {
        lemma_left_after(after, w, h, e, other);
        assert(left(before, w, h, other) == (left(after, w, h, other) || trail.contains(other)));
        assert(longer.contains(other) == (trail.contains(other) || other == e)) by {
            if trail.contains(other) {
                let i = choose|i: int| 0 <= i < trail.len() && trail[i] == other;
                assert(longer[i] == other);
            }
            if other == e {
                assert(longer[trail.len() as int] == other);
            }
            if longer.contains(other) {
                let i = choose|i: int| 0 <= i < longer.len() && longer[i] == other;
                if i < trail.len() {
                    assert(trail[i] == other);
                }
            }
        }
    }
}

/// What following edges from a grid point has come to.
spec fn is_traced(
    before: Seq<bool>,
    after: Seq<bool>,
    mask: Seq<u8>,
    w: int,
    h: int,
    trail: Seq<Edge>,
) -> bool {
    &&& after.len() == slots(w, h)
    &&& split_off(before, after, w, h, trail)
    &&& all_boundary(after, mask, w, h)
    &&& forall|i: int| 0 <= i < trail.len() ==> is_boundary(mask, w, h, #[trigger] trail[i])
    &&& forall|i: int|
        #![trigger trail[i]]
        0 <= i < trail.len() - 1 ==> trail[i].target() == trail[i + 1].source()
    &&& flagged_area(before, w, slots(w, h)) == flagged_area(after, w, slots(w, h)) + trail_area(
        trail,
    )
}

proof fn lemma_trace_more(
    before: Seq<bool>,
    after: Seq<bool>,
    mask: Seq<u8>,
    w: int,
    h: int,
    trail: Seq<Edge>,
    e: Edge,
)
    requires
        w >= 0,
        h >= 0,
        is_traced(before, after, mask, w, h, trail),
        left(after, w, h, e),
        trail.len() > 0 ==> trail.last().target() == e.source(),
    ensures
        is_traced(before, after.update(slot(e, w), false), mask, w, h, trail.push(e)),
        flag_count(after.update(slot(e, w), false), slots(w, h)) < flag_count(
            after,
            slots(w, h),
        ),
{
    let next = after.update(slot(e, w), false);
    let longer = trail.push(e);
    lemma_slot(e, w, h);
    lemma_split_more(before, after, w, h, trail, e);
    lemma_flag_update(after, w, slots(w, h), slot(e, w), false);
    lemma_flag_down(after, slots(w, h), slot(e, w));
    assert(longer.drop_last() == trail);
    assert((0int - 1) * edge_area(e) == -edge_area(e));
    assert forall|other: Edge| #[trigger] left(next, w, h, other) implies is_boundary(
        mask,
        w,
        h,
        other,
    ) by {
        lemma_left_after(after, w, h, e, other);
    }
    assert forall|i: int|
        #![trigger longer[i]]
        0 <= i < longer.len() - 1 implies longer[i].target() == longer[i + 1].source() by {
        if i < trail.len() - 1 {
            assert(trail[i].target() == trail[i + 1].source());
        }
    }
}

/// Follows edges from a grid point until they lead back to it.
fn trace_loop(
    flags: &mut Vec<bool>,
    w: usize,
    h: usize,
    x0: usize,
    y0: usize,
    Ghost(mask): Ghost<Seq<u8>>,
) -> (traced: (Vec<(i32, i32)>, Ghost<Seq<Edge>>))
    requires
        old(flags)@.len() == slots(w as int, h as int),
        w <= i32::MAX,
        h <= i32::MAX,
        x0 <= w,
        y0 <= h,
        all_boundary(old(flags)@, mask, w as int, h as int),
        is_open(
            old(flags)@,
            w as int,
            h as int,
            (x0 as int, y0 as int),
            (x0 as int, y0 as int),
        ),
        going_out(old(flags)@, w as int, h as int, x0 as int, y0 as int) > 0,
    ensures
        is_loop(traced.1@),
        is_traced(old(flags)@, final(flags)@, mask, w as int, h as int, traced.1@),
        is_open(
            final(flags)@,
            w as int,
            h as int,
            (x0 as int, y0 as int),
            (x0 as int, y0 as int),
        ),
        places(traced.0@) == points_of(traced.1@),
        flag_count(final(flags)@, slots(w as int, h as int)) < flag_count(
            old(flags)@,
            slots(w as int, h as int),
        ),
{
    let ghost wi = w as int;
    let ghost hi = h as int;
    let ghost before = flags@;
    let ghost start = (x0 as int, y0 as int);
    let ghost mut trail = Seq::<Edge>::empty();
    let mut contour: Vec<(i32, i32)> = Vec::new();
    let mut x: usize = x0;
    let mut y: usize = y0;
    let mut closed: bool = false;
    proof {
        assert(places(contour@) == points_of(trail));
        assert forall|e: Edge| !trail.contains(e) by {}
    }
    while !closed
        invariant
            wi == w,
            hi == h,
            w <= i32::MAX,
            h <= i32::MAX,
            x <= w,
            y <= h,
            start == (x0 as int, y0 as int),
            is_traced(before, flags@, mask, wi, hi, trail),
            is_open(flags@, wi, hi, start, (x as int, y as int)),
            closed <==> trail.len() > 0 && start == (x as int, y as int),
            trail.len() == 0 ==> x == x0 && y == y0 && flags@ == before && going_out(
                flags@,
                wi,
                hi,
                x as int,
                y as int,
            ) > 0,
            trail.len() > 0 ==> trail[0].source() == start && trail.last().target() == (
                x as int,
                y as int,
            ) && flag_count(flags@, slots(wi, hi)) < flag_count(before, slots(wi, hi)),
            places(contour@) == points_of(trail),
        decreases flag_count(flags@, slots(wi, hi)),
    {
        assert(going_out(flags@, wi, hi, x as int, y as int) > 0) by {
            if trail.len() > 0 {
                assert(going_out(flags@, wi, hi, x as int, y as int) - coming_in(
                    flags@,
                    wi,
                    hi,
                    x as int,
                    y as int,
                ) == 1);
            }
        }
        let ghost rest = flags@;
        let ghost drawn = contour@;
        match pop_edge(flags, w, h, x, y) {
            Some(d) => {
                let ghost e = Edge { x: x as int, y: y as int, d: d as int };
                proof {
                    lemma_take(rest, wi, hi, start, e);
                    lemma_boundary_on_grid(mask, wi, hi, e);
                    lemma_trace_more(before, rest, mask, wi, hi, trail, e);
                }
                contour.push((x as i32, y as i32));
                if d == 0 {
                    x = x + 1;
                } else if d == 1 {
                    y = y + 1;
                } else if d == 2 {
                    x = x - 1;
                } else {
                    y = y - 1;
                }
                proof {
                    assert(places(contour@) == places(drawn).push(e.source()));
                    assert(points_of(trail.push(e)) == points_of(trail).push(e.source()));
                    trail = trail.push(e);
                }
                closed = x == x0 && y == y0;
            },
            None => {
                closed = true;
            },
        }
    }
    (contour, Ghost(trail))
}

proof fn lemma_split_join(
    all: Seq<bool>,
    before: Seq<bool>,
    after: Seq<bool>,
    w: int,
    h: int,
    done: Seq<Edge>,
    trail: Seq<Edge>,
)
    requires
        split_off(all, before, w, h, done),
        split_off(before, after, w, h, trail),
    ensures
        split_off(all, after, w, h, done + trail),
{
    let both = done + trail;
    assert forall|e: Edge| #[trigger] both.contains(e) == (done.contains(e) || trail.contains(e)) by {
        if done.contains(e) {
            let i = choose|i: int| 0 <= i < done.len() && done[i] == e;
            assert(both[i] == e);
        }
        if trail.contains(e) {
            let i = choose|i: int| 0 <= i < trail.len() && trail[i] == e;
            assert(both[done.len() + i] == e);
        }
        if both.contains(e) {
            let i = choose|i: int| 0 <= i < both.len() && both[i] == e;
            if i < done.len() {
                assert(done[i] == e);
            } else {
                assert(trail[i - done.len()] == e);
            }
        }
    }
    assert forall|i: int, j: int|
        0 <= i < both.len() && 0 <= j < both.len() && i != j implies both[i] != both[j] by {
        if i < done.len() && j >= done.len() {
            assert(done.contains(done[i]));
            assert(trail.contains(trail[j - done.len()]));
            assert(left(before, w, h, trail[j - done.len()]));
        } else if j < done.len() && i >= done.len() {
            assert(done.contains(done[j]));
            assert(trail.contains(trail[i - done.len()]));
            assert(left(before, w, h, trail[i - done.len()]));
        }
    }
    assert forall|e: Edge|
        #![trigger left(all, w, h, e)]
        #![trigger left(after, w, h, e)]
        #![trigger both.contains(e)]
        left(all, w, h, e) == (left(after, w, h, e) || both.contains(e)) && !(left(after, w, h, e)
            && both.contains(e)) by {
        assert(left(all, w, h, e) == (left(before, w, h, e) || done.contains(e)));
        assert(left(before, w, h, e) == (left(after, w, h, e) || trail.contains(e)));
    }
}

/// The areas of loops together.
spec fn loops_area(loops: Seq<Seq<Edge>>) -> int
    decreases loops.len(),
{
    if loops.len() == 0 {
        0
    } else {
        loops_area(loops.drop_last()) + doubled_area(points_of(loops.last()))
    }
}

proof fn lemma_void_loops(loops: Seq<Seq<Edge>>, mask: Seq<u8>, w: int, h: int)
    requires
        forall|k: int| 0 <= k < loops.len() ==> is_boundary_loop(#[trigger] loops[k], mask, w, h),
        forall|k: int| 0 <= k < loops.len() ==> loop_area(#[trigger] loops[k]) == 0,
    ensures
        loops_area(loops) == 0,
    decreases loops.len(),
{
    if loops.len() > 0 {
        let last = loops.last();
        assert(last == loops[loops.len() - 1]);
        lemma_corner_area(last, mask, w, h);
        lemma_void_loops(loops.drop_last(), mask, w, h);
    }
}

proof fn lemma_none_set(mask: Seq<u8>, n: int)
    requires
        0 <= n <= mask.len(),
    ensures
        set_count(mask, n) == 0 <==> forall|i: int| 0 <= i < n ==> #[trigger] mask[i] == 0,
    decreases n,
{
    if n > 0 {
        lemma_none_set(mask, n - 1);
        if set_count(mask, n) == 0 {
            assert forall|i: int| 0 <= i < n implies #[trigger] mask[i] == 0 by {}
        }
    }
}

/// What is known once some loops are traced.
spec fn is_partial(
    flags: Seq<bool>,
    mask: Seq<u8>,
    w: int,
    h: int,
    loops: Seq<Seq<Edge>>,
) -> bool {
    &&& flags.len() == slots(w, h)
    &&& split_off(boundary_flags(mask, w, h), flags, w, h, edges_of(loops))
    &&& all_boundary(flags, mask, w, h)
    &&& forall|k: int| 0 <= k < loops.len() ==> is_boundary_loop(#[trigger] loops[k], mask, w, h)
    &&& is_open(flags, w, h, (0, 0), (0, 0))
    &&& loops_area(loops) + flagged_area(flags, w, slots(w, h)) == 2 * set_count(mask, w * h)
}

proof fn lemma_partial_more(
    before: Seq<bool>,
    after: Seq<bool>,
    mask: Seq<u8>,
    w: int,
    h: int,
    loops: Seq<Seq<Edge>>,
    trail: Seq<Edge>,
    p: (int, int),
)
    requires
        is_partial(before, mask, w, h, loops),
        is_traced(before, after, mask, w, h, trail),
        is_loop(trail),
        is_open(after, w, h, p, p),
    ensures
        is_partial(after, mask, w, h, loops.push(trail)),
{
    let more = loops.push(trail);
    assert(more.drop_last() == loops);
    assert(edges_of(more) == edges_of(loops) + trail);
    lemma_split_join(boundary_flags(mask, w, h), before, after, w, h, edges_of(loops), trail);
    lemma_trail_area(trail, trail.len() as int);
    assert(trail.take(trail.len() as int) == trail);
    assert forall|x: int, y: int|
        #![trigger going_out(after, w, h, x, y)]
        going_out(after, w, h, x, y) - coming_in(after, w, h, x, y) == one_if((x, y) == (0int, 0int))
            - one_if((x, y) == (0int, 0int)) by {
        assert(going_out(after, w, h, x, y) - coming_in(after, w, h, x, y) == one_if((x, y) == p)
            - one_if((x, y) == p));
    }
    assert forall|k: int| 0 <= k < more.len() implies is_boundary_loop(
        #[trigger] more[k],
        mask,
        w,
        h,
    ) by {
        if k < loops.len() {
            assert(more[k] == loops[k]);
        }
    }
}

/// A contour over mathematical integers.
pub open spec fn contour_places(contour: Option<Vec<(i32, i32)>>) -> Option<Seq<(int, int)>> {
    match contour {
        Some(points) => Some(places(points@)),
        None => None,
    }
}

/// The corners of the largest outline of a bitmap, if a pixel is set. Where regions
/// touch at a corner, their boundary can be cut into loops in more than one way; the
/// outline is one of the loops of one of these.
pub fn largest_external_contour(mask: &Vec<u8>, width: usize, height: usize) -> (contour: Option<
    Vec<(i32, i32)>,
>)
    requires
        mask@.len() >= width * height,
        width <= i32::MAX,
        height <= i32::MAX,
    ensures
        exists|loops: Seq<Seq<Edge>>|
            #![trigger edges_of(loops)]
            is_outline(loops, mask@, width as int, height as int) && is_largest(
                contour_places(contour),
                loops,
            ),
        contour is None <==> forall|i: int|
            0 <= i < width * height ==> #[trigger] mask@[i] == 0,
{
    let ghost w = width as int;
    let ghost h = height as int;
    let ghost m = mask@;
    let mut flags = flag_boundary(mask, width, height);
    let n: usize = flags.len();
    let ghost mut loops = Seq::<Seq<Edge>>::empty();
    let mut best: Option<Vec<(i32, i32)>> = None;
    let mut best_area: i128 = 0;
    let mut i: usize = 0;
    proof {
        assert(w * h >= 0) by (nonlinear_arith)
            requires
                w >= 0,
                h >= 0,
        ;
        lemma_boundary_area(m, w, h, w * h);
        lemma_boundary_even(m, w, h, (0, 0));
        assert forall|j: int| 0 <= j < n implies flags@[j] == #[trigger] boundary_flags(
            upto(m, w * h),
            w,
            h,
        )[j] by {
            lemma_upto_all(m, w, h, edge_at(j, w));
        }
        assert(flags@ == boundary_flags(upto(m, w * h), w, h));
        assert forall|e: Edge| #[trigger] left(flags@, w, h, e) implies is_boundary(m, w, h, e) by {
            lemma_boundary_left(m, w, h, e);
        }
        assert(edges_of(loops) == Seq::<Edge>::empty());
    }
    while i < n
        invariant
            w == width,
            h == height,
            m == mask@,
            width <= i32::MAX,
            height <= i32::MAX,
            i <= n == slots(w, h),
            is_partial(flags@, m, w, h, loops),
            forall|j: int| 0 <= j < i ==> !#[trigger] flags@[j],
            is_largest(contour_places(best), loops),
            best is None ==> best_area == 0,
            best is Some ==> best_area == size_of(doubled_area(places(best->0@))),
        decreases flag_count(flags@, slots(w, h)), n - i,
    {
        if flags[i] {
            let v: usize = i / 4;
            let x: usize = v % (width + 1);
            let y: usize = v / (width + 1);
            let ghost before = flags@;
            let ghost p = (x as int, y as int);
            proof {
                let e = edge_at(i as int, w);
                lemma_edge_at(i as int, w, h);
                assert(e.x == x && e.y == y);
                assert(left(before, w, h, e));
                assert(e.d == 0 || e.d == 1 || e.d == 2 || e.d == 3);
                assert forall|a: int, b: int|
                    #![trigger going_out(before, w, h, a, b)]
                    going_out(before, w, h, a, b) - coming_in(before, w, h, a, b) == one_if(
                        (a, b) == p,
                    ) - one_if((a, b) == p) by {
                    assert(going_out(before, w, h, a, b) - coming_in(before, w, h, a, b) == one_if(
                        (a, b) == (0int, 0int),
                    ) - one_if((a, b) == (0int, 0int)));
                }
            }
            let (points, Ghost(trail)) = trace_loop(&mut flags, width, height, x, y, Ghost(m));
            proof {
                lemma_partial_more(before, flags@, m, w, h, loops, trail, p);
                assert forall|j: int| 0 <= j < i implies !#[trigger] flags@[j] by {
                    let e = edge_at(j, w);
                    lemma_edge_at(j, w, h);
                    assert(left(before, w, h, e) == (left(flags@, w, h, e) || trail.contains(e)));
                    assert(!before[j]);
                }
            }
            let ghost old_loops = loops;
            let ghost old_best = contour_places(best);
            proof {
                loops = loops.push(trail);
            }
            if points.len() >= 3 {
                let kept = remove_collinear_i32(points);
                let doubled: i128 = signed_area_i32(&kept);
                proof {
                    assert(size_of(doubled as int) == loop_area(trail));
                }
                let area: i128 = if doubled < 0 {
                    -doubled
                } else {
                    doubled
                };
                if area > best_area {
                    best_area = area;
                    best = Some(kept);
                    proof {
                        assert(loops[old_loops.len() as int] == trail);
                        assert forall|k: int| 0 <= k < loops.len() implies loop_area(
                            #[trigger] loops[k],
                        ) <= best_area by {
                            if k < old_loops.len() {
                                assert(loops[k] == old_loops[k]);
                            }
                        }
                    }
                } else {
                    proof {
                        lemma_largest_more(old_best, old_loops, trail);
                    }
                }
            } else {
                proof {
                    lemma_short_loop(trail);
                    lemma_largest_more(old_best, old_loops, trail);
                }
            }
        } else {
            i = i + 1;
        }
    }
    proof {
        lemma_no_flags(flags@, w, slots(w, h));
        lemma_none_set(m, w * h);
        let done = edges_of(loops);
        assert forall|e: Edge| #[trigger] done.contains(e) <==> is_boundary(m, w, h, e) by {
            lemma_boundary_left(m, w, h, e);
            assert(left(boundary_flags(m, w, h), w, h, e) == (left(flags@, w, h, e)
                || done.contains(e)));
            if left(flags@, w, h, e) {
                lemma_slot(e, w, h);
            }
        }
        assert forall|k: int| 0 <= k < loops.len() implies is_loop(#[trigger] loops[k]) by {
            assert(is_boundary_loop(loops[k], m, w, h));
        }
        assert(is_outline(loops, m, w, h));
        if best is None {
            lemma_void_loops(loops, m, w, h);
        } else if set_count(m, w * h) == 0 {
            let k = choose|k: int|
                0 <= k < loops.len() && places(best->0@) == corners(points_of(#[trigger] loops[k]));
            assert(is_boundary_loop(loops[k], m, w, h));
            let e = loops[k][0];
            assert(is_boundary(m, w, h, e));
            let (x, y) = e.inner();
            assert(0 <= y * w + x < w * h) by (nonlinear_arith)
                requires
                    0 <= x < w,
                    0 <= y < h,
            ;
        }
    }
    best
}

proof fn lemma_upto_all(mask: Seq<u8>, w: int, h: int, e: Edge)
    requires
        mask.len() >= w * h,
        w >= 0,
        h >= 0,
    ensures
        is_boundary(upto(mask, w * h), w, h, e) == is_boundary(mask, w, h, e),
{
    let (x, y) = e.inner();
    let (a, b) = e.outer();
    if 0 <= x < w && 0 <= y < h {
        assert(0 <= y * w + x < w * h) by (nonlinear_arith)
            requires
                0 <= x < w,
                0 <= y < h,
        ;
    }
    if 0 <= a < w && 0 <= b < h {
        assert(0 <= b * w + a < w * h) by (nonlinear_arith)
            requires
                0 <= a < w,
                0 <= b < h,
        ;
    }
}

proof fn lemma_largest_more(
    contour: Option<Seq<(int, int)>>,
    loops: Seq<Seq<Edge>>,
    trail: Seq<Edge>,
)
    requires
        is_largest(contour, loops),
        contour is None ==> loop_area(trail) == 0,
        contour is Some ==> loop_area(trail) <= size_of(doubled_area(contour->0)),
    ensures
        is_largest(contour, loops.push(trail)),
{
    let more = loops.push(trail);
    assert forall|k: int| 0 <= k < more.len() implies loop_area(#[trigger] more[k])
        <= match contour {
        Some(points) => size_of(doubled_area(points)),
        None => 0,
    } by {
        if k < loops.len() {
            assert(more[k] == loops[k]);
        }
    }
    assert forall|k: int| 0 <= k < more.len() implies loop_area(#[trigger] more[k]) >= 0 by {}
    if contour is Some {
        let k = choose|k: int|
            0 <= k < loops.len() && contour->0 == corners(points_of(#[trigger] loops[k]));
        assert(more[k] == loops[k]);
    }
}

proof fn lemma_short_loop(trail: Seq<Edge>)
    requires
        0 < trail.len() < 3,
    ensures
        loop_area(trail) == 0,
{
    reveal(cross);
    let points = points_of(trail);
    reveal_with_fuel(area_upto, 3);
    if trail.len() == 1 {
        assert(1int % 1 == 0);
        let a = points[0];
        assert(a.0 * a.1 - a.1 * a.0 == 0) by (nonlinear_arith);
    } else {
        assert(1int % 2 == 1 && 2int % 2 == 0);
        let a = points[0];
        let b = points[1];
        assert((a.0 * b.1 - a.1 * b.0) + (b.0 * a.1 - b.1 * a.0) == 0) by (nonlinear_arith);
    }
}

proof fn lemma_loop_is_boundary(loops: Seq<Seq<Edge>>, k: int, i: int)
    requires
        0 <= k < loops.len(),
        0 <= i < loops[k].len(),
    ensures
        edges_of(loops).contains(loops[k][i]),
    decreases loops.len(),
{
    let last = loops.len() - 1;
    let all = edges_of(loops);
    let before = edges_of(loops.drop_last());
    if k == last {
        assert(all[before.len() + i] == loops[k][i]);
    } else {
        lemma_loop_is_boundary(loops.drop_last(), k, i);
        let at = before.index_of(loops[k][i]);
        assert(before.contains(loops.drop_last()[k][i]));
        assert(all[at] == loops[k][i]);
    }
}

proof fn lemma_loop_has_no_duplicates(loops: Seq<Seq<Edge>>, k: int)
    requires
        0 <= k < loops.len(),
        edges_of(loops).no_duplicates(),
    ensures
        loops[k].no_duplicates(),
    decreases loops.len(),
{
    let all = edges_of(loops);
    let before = edges_of(loops.drop_last());
    if k == loops.len() - 1 {
        assert forall|i: int, j: int| 0 <= i < j < loops[k].len() implies loops[k][i]
            != loops[k][j] by {
            assert(all[before.len() + i] == loops[k][i]);
            assert(all[before.len() + j] == loops[k][j]);
        }
    } else {
        assert forall|i: int, j: int| 0 <= i < j < before.len() implies before[i] != before[j] by {
            assert(all[i] == before[i]);
            assert(all[j] == before[j]);
        }
        lemma_loop_has_no_duplicates(loops.drop_last(), k);
        assert(loops.drop_last()[k] == loops[k]);
    }
}

proof fn lemma_turns_upto(points: Seq<(int, int)>, n: int)
    requires
        0 <= n <= points.len(),
    ensures
        forall|i: int|
            0 <= i < n && #[trigger] turns(points, i) ==> turns_upto(points, n).contains(points[i]),
        forall|p: (int, int)| #[trigger]
            turns_upto(points, n).contains(p) ==> exists|i: int|
                0 <= i < n && #[trigger] turns(points, i) && p == points[i],
        points.no_duplicates() ==> turns_upto(points, n).no_duplicates(),
    decreases n,
{
    if n > 0 {
        lemma_turns_upto(points, n - 1);
        let before = turns_upto(points, n - 1);
        let now = turns_upto(points, n);
        if turns(points, n - 1) {
            assert(now == before.push(points[n - 1]));
            assert(now[before.len() as int] == points[n - 1]);
            assert forall|i: int| 0 <= i < n && #[trigger] turns(points, i) implies now.contains(
                points[i],
            ) by {
                if i < n - 1 {
                    let at = before.index_of(points[i]);
                    assert(before.contains(points[i]));
                    assert(now[at] == points[i]);
                }
            }
            assert forall|p: (int, int)| #[trigger] now.contains(p) implies exists|i: int|
                0 <= i < n && #[trigger] turns(points, i) && p == points[i] by {
                let at = now.index_of(p);
                if at < before.len() {
                    assert(before[at] == p);
                    assert(before.contains(p));
                } else {
                    assert(turns(points, n - 1) && p == points[n - 1]);
                }
            }
            if points.no_duplicates() {
                assert forall|i: int, j: int| 0 <= i < j < now.len() implies now[i] != now[j] by {
                    if j == before.len() {
                        assert(before[i] == now[i]);
                        assert(before.contains(now[i]));
                        let m = choose|m: int|
                            0 <= m < n - 1 && #[trigger] turns(points, m) && now[i] == points[m];
                        assert(points[m] != points[n - 1]);
                    } else {
                        assert(before[i] == now[i] && before[j] == now[j]);
                    }
                }
            }
        }
    }
}

/// Whether the set pixels of a bitmap are those of a rectangle.
pub open spec fn is_block(
    mask: Seq<u8>,
    w: int,
    h: int,
    x0: int,
    y0: int,
    x1: int,
    y1: int,
) -> bool {
    &&& 0 <= x0 < x1 <= w
    &&& 0 <= y0 < y1 <= h
    &&& forall|x: int, y: int|
        0 <= x < w && 0 <= y < h ==> (#[trigger] mask[y * w + x] != 0) == (x0 <= x < x1 && y0 <= y
            < y1)
}

/// How far along the rim of a rectangle an edge starts.
spec fn way(e: Edge, x0: int, y0: int, x1: int, y1: int) -> int {
    if e.d == 0 {
        e.x - x0
    } else if e.d == 1 {
        x1 - x0 + e.y - y0
    } else if e.d == 2 {
        x1 - x0 + y1 - y0 + x1 - e.x
    } else {
        2 * (x1 - x0) + y1 - y0 + y1 - e.y
    }
}

/// Whether an edge lies on the rim of a rectangle.
spec fn on_rim(e: Edge, x0: int, y0: int, x1: int, y1: int) -> bool {
    ||| e.d == 0 && e.y == y0 && x0 <= e.x < x1
    ||| e.d == 1 && e.x == x1 && y0 <= e.y < y1
    ||| e.d == 2 && e.y == y1 && x0 < e.x <= x1
    ||| e.d == 3 && e.x == x0 && y0 < e.y <= y1
}

proof fn lemma_rim(
    mask: Seq<u8>,
    w: int,
    h: int,
    x0: int,
    y0: int,
    x1: int,
    y1: int,
    e: Edge,
)
    requires
        is_block(mask, w, h, x0, y0, x1, y1),
        is_boundary(mask, w, h, e),
    ensures
        on_rim(e, x0, y0, x1, y1),
{
    let (ix, iy) = e.inner();
    let (ox, oy) = e.outer();
    assert(mask[iy * w + ix] != 0);
    if 0 <= ox < w && 0 <= oy < h {
        assert(mask[oy * w + ox] == 0);
    }
}

/// Twice the area of four points is the product of their diagonals.
#[verifier::rlimit(40)]
proof fn lemma_four_points(p: Seq<(int, int)>)
    requires
        p.len() == 4,
    ensures
        doubled_area(p) == (p[0].0 - p[2].0) * (p[1].1 - p[3].1) - (p[0].1 - p[2].1) * (p[1].0
            - p[3].0),
{
    reveal(cross);
    reveal_with_fuel(area_upto, 5);
    assert(1int % 4 == 1 && 2int % 4 == 2 && 3int % 4 == 3 && 4int % 4 == 0);
    let (a, b, c, d) = (p[0], p[1], p[2], p[3]);
    assert(a.0 * b.1 - a.1 * b.0 + (b.0 * c.1 - b.1 * c.0) + (c.0 * d.1 - c.1 * d.0) + (d.0 * a.1
        - d.1 * a.0) == (a.0 - c.0) * (b.1 - d.1) - (a.1 - c.1) * (b.0 - d.0))
        by (nonlinear_arith);
}

/// Whether a point is a corner of a rectangle.
spec fn is_corner(p: (int, int), x0: int, y0: int, x1: int, y1: int) -> bool {
    (p.0 == x0 || p.0 == x1) && (p.1 == y0 || p.1 == y1)
}

proof fn lemma_rim_corners(
    trail: Seq<Edge>,
    mask: Seq<u8>,
    w: int,
    h: int,
    x0: int,
    y0: int,
    x1: int,
    y1: int,
)
    requires
        is_boundary_loop(trail, mask, w, h),
        trail.no_duplicates(),
        x0 < x1,
        y0 < y1,
        forall|j: int| 0 <= j < trail.len() ==> on_rim(#[trigger] trail[j], x0, y0, x1, y1),
    ensures
        corners(points_of(trail)).no_duplicates(),
        corners(points_of(trail)).contains((x0, y0)),
        corners(points_of(trail)).contains((x1, y0)),
        corners(points_of(trail)).contains((x1, y1)),
        corners(points_of(trail)).contains((x0, y1)),
        forall|i: int|
            0 <= i < corners(points_of(trail)).len() ==> is_corner(
                #[trigger] corners(points_of(trail))[i],
                x0,
                y0,
                x1,
                y1,
            ),
{
    let n = trail.len() as int;
    let points = points_of(trail);
    let across = x1 - x0;
    let down = y1 - y0;
    assert(points.no_duplicates()) by {
        assert forall|i: int, j: int| 0 <= i < j < n implies points[i] != points[j] by {
            assert(trail[i] != trail[j]);
            assert(on_rim(trail[i], x0, y0, x1, y1) && on_rim(trail[j], x0, y0, x1, y1));
        }
    }
    lemma_whole_rim(trail, x0, y0, x1, y1, 0);
    lemma_whole_rim(trail, x0, y0, x1, y1, across);
    lemma_whole_rim(trail, x0, y0, x1, y1, across + down);
    lemma_whole_rim(trail, x0, y0, x1, y1, 2 * across + down);
    let i0 = choose|i: int| 0 <= i < n && #[trigger] way(trail[i], x0, y0, x1, y1) == 0;
    let i1 = choose|i: int| 0 <= i < n && #[trigger] way(trail[i], x0, y0, x1, y1) == across;
    let i2 = choose|i: int|
        0 <= i < n && #[trigger] way(trail[i], x0, y0, x1, y1) == across + down;
    let i3 = choose|i: int|
        0 <= i < n && #[trigger] way(trail[i], x0, y0, x1, y1) == 2 * across + down;
    assert(i0 != i1 && i0 != i2 && i1 != i2);
    assert(n > 2);
    let line = corners(points);
    assert(line == turns_upto(points, n));
    lemma_turns_upto(points, n);
    assert(on_rim(trail[i0], x0, y0, x1, y1) && on_rim(trail[i1], x0, y0, x1, y1));
    assert(on_rim(trail[i2], x0, y0, x1, y1) && on_rim(trail[i3], x0, y0, x1, y1));
    lemma_rim_turns(trail, mask, w, h, x0, y0, x1, y1, i0);
    lemma_rim_turns(trail, mask, w, h, x0, y0, x1, y1, i1);
    lemma_rim_turns(trail, mask, w, h, x0, y0, x1, y1, i2);
    lemma_rim_turns(trail, mask, w, h, x0, y0, x1, y1, i3);
    assert(points[i0] == (x0, y0) && points[i1] == (x1, y0) && points[i2] == (x1, y1)
        && points[i3] == (x0, y1));
    assert forall|m: int| 0 <= m < line.len() implies is_corner(
        #[trigger] line[m],
        x0,
        y0,
        x1,
        y1,
    ) by {
        assert(turns_upto(points, n).contains(line[m]));
        let i = choose|i: int| 0 <= i < n && #[trigger] turns(points, i) && line[m] == points[i];
        lemma_rim_turns(trail, mask, w, h, x0, y0, x1, y1, i);
    }
}

proof fn lemma_four_corners(line: Seq<(int, int)>, x0: int, y0: int, x1: int, y1: int)
    requires
        x0 < x1,
        y0 < y1,
        line.no_duplicates(),
        line.contains((x0, y0)),
        line.contains((x1, y0)),
        line.contains((x1, y1)),
        line.contains((x0, y1)),
        forall|i: int| 0 <= i < line.len() ==> is_corner(#[trigger] line[i], x0, y0, x1, y1),
    ensures
        line.len() == 4,
{
    let a = line.index_of((x0, y0));
    let b = line.index_of((x1, y0));
    let c = line.index_of((x1, y1));
    let d = line.index_of((x0, y1));
    assert(line[a] == (x0, y0) && line[b] == (x1, y0) && line[c] == (x1, y1) && line[d] == (
        x0,
        y1,
    ));
    assert(line.len() >= 4);
    if line.len() > 4 {
        assert(is_corner(line[0], x0, y0, x1, y1));
        assert(is_corner(line[1], x0, y0, x1, y1));
        assert(is_corner(line[2], x0, y0, x1, y1));
        assert(is_corner(line[3], x0, y0, x1, y1));
        assert(is_corner(line[4], x0, y0, x1, y1));
        assert(line[0] != line[1] && line[0] != line[2] && line[0] != line[3] && line[0]
            != line[4]);
        assert(line[1] != line[2] && line[1] != line[3] && line[1] != line[4]);
        assert(line[2] != line[3] && line[2] != line[4] && line[3] != line[4]);
    }
}

/// A rectangle of pixels is outlined by its four corners, each of which comes once and
/// lies across from the next but one.
pub proof fn law_rectangles_are_outlined_by_their_corners(
    mask: Seq<u8>,
    w: int,
    h: int,
    x0: int,
    y0: int,
    x1: int,
    y1: int,
    loops: Seq<Seq<Edge>>,
    line: Seq<(int, int)>,
)
    requires
        is_block(mask, w, h, x0, y0, x1, y1),
        is_outline(loops, mask, w, h),
        is_largest(Some(line), loops),
    ensures
        line.len() == 4,
        line.no_duplicates(),
        line.contains((x0, y0)),
        line.contains((x1, y0)),
        line.contains((x1, y1)),
        line.contains((x0, y1)),
        line[0].0 != line[2].0 && line[0].1 != line[2].1,
        line[1].0 != line[3].0 && line[1].1 != line[3].1,
{
    let k = choose|k: int| 0 <= k < loops.len() && line == corners(points_of(#[trigger] loops[k]));
    let trail = loops[k];
    let n = trail.len() as int;
    assert forall|i: int| 0 <= i < n implies on_rim(#[trigger] trail[i], x0, y0, x1, y1)
        && is_boundary(mask, w, h, trail[i]) by {
        lemma_loop_is_boundary(loops, k, i);
        lemma_rim(mask, w, h, x0, y0, x1, y1, trail[i]);
    }
    assert(is_boundary_loop(trail, mask, w, h));
    lemma_loop_has_no_duplicates(loops, k);
    lemma_rim_corners(trail, mask, w, h, x0, y0, x1, y1);
    lemma_four_corners(line, x0, y0, x1, y1);
    lemma_four_points(line);
    let (a, b, c, d) = (line[0], line[1], line[2], line[3]);
    assert(is_corner(a, x0, y0, x1, y1) && is_corner(b, x0, y0, x1, y1));
    assert(is_corner(c, x0, y0, x1, y1) && is_corner(d, x0, y0, x1, y1));
    assert(a != b && a != c && a != d && b != c && b != d && c != d);
    if a.0 == c.0 || a.1 == c.1 {
        assert(a.0 == c.0 && b.0 == d.0 || a.1 == c.1 && b.1 == d.1);
        assert((a.0 - c.0) * (b.1 - d.1) - (a.1 - c.1) * (b.0 - d.0) == 0) by (nonlinear_arith)
            requires
                a.0 == c.0 && b.0 == d.0 || a.1 == c.1 && b.1 == d.1,
        ;
        assert(false);
    }
}

proof fn lemma_rim_next(trail: Seq<Edge>, x0: int, y0: int, x1: int, y1: int, i: int) -> (next: int)
    requires
        is_loop(trail),
        x0 < x1,
        y0 < y1,
        forall|j: int| 0 <= j < trail.len() ==> on_rim(#[trigger] trail[j], x0, y0, x1, y1),
        0 <= i < trail.len(),
    ensures
        0 <= next < trail.len(),
        way(trail[next], x0, y0, x1, y1) == way(trail[i], x0, y0, x1, y1) + 1 || (way(
            trail[next],
            x0,
            y0,
            x1,
            y1,
        ) == 0 && way(trail[i], x0, y0, x1, y1) == 2 * (x1 - x0) + 2 * (y1 - y0) - 1),
        0 <= way(trail[i], x0, y0, x1, y1) < 2 * (x1 - x0) + 2 * (y1 - y0),
        trail[i].target() == trail[next].source(),
{
    let next = if i == trail.len() - 1 {
        0
    } else {
        i + 1
    };
    assert(on_rim(trail[i], x0, y0, x1, y1) && on_rim(trail[next], x0, y0, x1, y1));
    assert(trail[i].target() == trail[next].source()) by {
        if i < trail.len() - 1 {
            assert(trail[i].target() == trail[i + 1].source());
        }
    }
    next
}

proof fn lemma_rim_from(
    trail: Seq<Edge>,
    x0: int,
    y0: int,
    x1: int,
    y1: int,
    i: int,
    steps: int,
) -> (at: int)
    requires
        is_loop(trail),
        x0 < x1,
        y0 < y1,
        forall|j: int| 0 <= j < trail.len() ==> on_rim(#[trigger] trail[j], x0, y0, x1, y1),
        0 <= i < trail.len(),
        0 <= steps,
        way(trail[i], x0, y0, x1, y1) + steps < 2 * (x1 - x0) + 2 * (y1 - y0),
    ensures
        0 <= at < trail.len(),
        way(trail[at], x0, y0, x1, y1) == way(trail[i], x0, y0, x1, y1) + steps,
    decreases steps,
{
    if steps == 0 {
        i
    } else {
        let next = lemma_rim_next(trail, x0, y0, x1, y1, i);
        lemma_rim_from(trail, x0, y0, x1, y1, next, steps - 1)
    }
}

/// A loop on the rim of a rectangle runs all around it.
proof fn lemma_whole_rim(trail: Seq<Edge>, x0: int, y0: int, x1: int, y1: int, q: int)
    requires
        is_loop(trail),
        x0 < x1,
        y0 < y1,
        forall|j: int| 0 <= j < trail.len() ==> on_rim(#[trigger] trail[j], x0, y0, x1, y1),
        0 <= q < 2 * (x1 - x0) + 2 * (y1 - y0),
    ensures
        exists|i: int| 0 <= i < trail.len() && #[trigger] way(trail[i], x0, y0, x1, y1) == q,
{
    let around = 2 * (x1 - x0) + 2 * (y1 - y0);
    let from = way(trail[0], x0, y0, x1, y1);
    let a = lemma_rim_next(trail, x0, y0, x1, y1, 0);
    let last = lemma_rim_from(trail, x0, y0, x1, y1, 0, around - 1 - from);
    let zero = lemma_rim_next(trail, x0, y0, x1, y1, last);
    let next = lemma_rim_next(trail, x0, y0, x1, y1, zero);
    assert(way(trail[zero], x0, y0, x1, y1) == 0);
    let at = lemma_rim_from(trail, x0, y0, x1, y1, zero, q);
    assert(way(trail[at], x0, y0, x1, y1) == q);
}

/// A loop on the rim of a rectangle turns at its corners and nowhere else.
proof fn lemma_rim_turns(
    trail: Seq<Edge>,
    mask: Seq<u8>,
    w: int,
    h: int,
    x0: int,
    y0: int,
    x1: int,
    y1: int,
    i: int,
)
    requires
        is_boundary_loop(trail, mask, w, h),
        x0 < x1,
        y0 < y1,
        forall|j: int| 0 <= j < trail.len() ==> on_rim(#[trigger] trail[j], x0, y0, x1, y1),
        0 <= i < trail.len(),
    ensures
        turns(points_of(trail), i) <==> (trail[i].x == x0 || trail[i].x == x1) && (trail[i].y == y0
            || trail[i].y == y1),
{
    lemma_turn(trail, mask, w, h, i);
    let before = if i == 0 {
        trail.len() - 1
    } else {
        i - 1
    };
    assert(trail[before].target() == trail[i].source()) by {
        if i > 0 {
            assert(trail[i - 1].target() == trail[i - 1 + 1].source());
        }
    }
    assert(on_rim(trail[i], x0, y0, x1, y1) && on_rim(trail[before], x0, y0, x1, y1));
}

/// Every point of the outline of a bitmap is a corner of a set pixel and of one that is
/// not set, or is outside.
pub proof fn law_outlines_touch_the_region(
    mask: Seq<u8>,
    w: int,
    h: int,
    loops: Seq<Seq<Edge>>,
    line: Seq<(int, int)>,
    i: int,
)
    requires
        is_outline(loops, mask, w, h),
        is_largest(Some(line), loops),
        0 <= i < line.len(),
    ensures
        exists|x: int, y: int|
            0 <= x < w && 0 <= y < h && line[i].0 - 1 <= x <= line[i].0 && line[i].1 - 1 <= y
                <= line[i].1 && #[trigger] mask[y * w + x] != 0,
        exists|x: int, y: int|
            line[i].0 - 1 <= x <= line[i].0 && line[i].1 - 1 <= y <= line[i].1 && !(
            #[trigger] pixel(mask, w, h, x, y)),
{
    let k = choose|k: int| 0 <= k < loops.len() && line == corners(points_of(#[trigger] loops[k]));
    let trail = loops[k];
    let points = points_of(trail);
    assert(exists|j: int| 0 <= j < points.len() && #[trigger] points[j] == line[i]) by {
        if points.len() <= 2 {
            assert(points[i] == line[i]);
        } else {
            lemma_turns_upto(points, points.len() as int);
            assert(turns_upto(points, points.len() as int).contains(line[i]));
        }
    }
    let j = choose|j: int| 0 <= j < points.len() && #[trigger] points[j] == line[i];
    lemma_loop_is_boundary(loops, k, j);
    let e = trail[j];
    assert(is_boundary(mask, w, h, e));
    let (ix, iy) = e.inner();
    let (ox, oy) = e.outer();
    assert(mask[iy * w + ix] != 0);
    assert(!pixel(mask, w, h, ox, oy));
}

/// The area of a polygon is made of triangles: one point more adds the triangle of that
/// point, the last one and the first one, with its sign. One point alone has no area, and
/// neither has a line between two.
#[verifier::rlimit(40)]
pub proof fn law_areas_are_made_of_triangles(line: Seq<(int, int)>, p: (int, int))
    requires
        line.len() > 0,
    ensures
        ({
            let first = line[0];
            let last = line.last();
            doubled_area(line.push(p)) == doubled_area(line) + (last.0 - first.0) * (p.1 - first.1)
                - (last.1 - first.1) * (p.0 - first.0)
        }),
        line.len() <= 2 ==> doubled_area(line) == 0,
{
    reveal(cross);
    let n = line.len() as int;
    let more = line.push(p);
    let f = line[0];
    let l = line[n - 1];
    lemma_area_prefix(line, more, n - 1);
    lemma_small_mod(n as nat, (n + 1) as nat);
    lemma_small_mod(0, n as nat);
    assert(n % n == 0) by (nonlinear_arith)
        requires
            n > 0,
    ;
    assert((n + 1) % (n + 1) == 0) by (nonlinear_arith)
        requires
            n > 0,
    ;
    assert(more[n] == p && more[n - 1] == l && more[0] == f);
    assert(area_upto(line, n) == area_upto(line, n - 1) + cross(l, f));
    assert(area_upto(more, n) == area_upto(more, n - 1) + cross(l, p));
    assert(area_upto(more, n + 1) == area_upto(more, n) + cross(p, f));
    assert((l.0 * p.1 - l.1 * p.0) + (p.0 * f.1 - p.1 * f.0) - (l.0 * f.1 - l.1 * f.0) == (l.0
        - f.0) * (p.1 - f.1) - (l.1 - f.1) * (p.0 - f.0)) by (nonlinear_arith);
    if n <= 2 {
        reveal_with_fuel(area_upto, 3);
        if n == 2 {
            assert(1int % 2 == 1);
            assert(cross(line[0], line[1]) + cross(line[1], line[0]) == 0) by {
                let (a, b) = (line[0], line[1]);
                assert((a.0 * b.1 - a.1 * b.0) + (b.0 * a.1 - b.1 * a.0) == 0)
                    by (nonlinear_arith);
            }
        } else {
            assert(cross(line[0], line[0]) == 0) by {
                let a = line[0];
                assert(a.0 * a.1 - a.1 * a.0 == 0) by (nonlinear_arith);
            }
        }
    }
}

/// A closed line keeps the points where it turns, in their order, and leaves out those
/// where it goes straight on.
pub proof fn law_lines_keep_the_points_where_they_turn(points: Seq<(int, int)>, i: int)
    requires
        0 <= i < points.len(),
        points.len() > 2,
    ensures
        ({
            let n = points.len() as int;
            let at = points[i];
            let before = points[if i == 0 {
                n - 1
            } else {
                i - 1
            }];
            let after = points[if i == n - 1 {
                0
            } else {
                i + 1
            }];
            let turn = (at.0 - before.0) * (after.1 - at.1) - (at.1 - before.1) * (after.0 - at.0);
            &&& turn != 0 ==> turns_upto(points, i + 1) == turns_upto(points, i).push(at)
            &&& turn == 0 ==> turns_upto(points, i + 1) == turns_upto(points, i)
            &&& turns_upto(points, 0).len() == 0
            &&& corners(points) == turns_upto(points, n)
        }),
{
    reveal(turns);
    let n = points.len() as int;
    if i == 0 {
        lemma_small_mod((n - 1) as nat, n as nat);
    } else {
        lemma_small_mod((i - 1) as nat, n as nat);
        lemma_mod_add_multiples_vanish(i - 1, n);
        assert((i + n - 1) % n == i - 1);
    }
    if i < n - 1 {
        lemma_small_mod((i + 1) as nat, n as nat);
    } else {
        assert(n % n == 0) by (nonlinear_arith)
            requires
                n > 0,
        ;
    }
}

/// Of all the loops of a bitmap the outline is one, and none encloses a greater area,
/// whichever way round it goes; there is no outline only where none encloses any.
pub proof fn law_no_loop_is_larger(
    contour: Option<Seq<(int, int)>>,
    loops: Seq<Seq<Edge>>,
    k: int,
)
    requires
        is_largest(contour, loops),
        0 <= k < loops.len(),
    ensures
        ({
            let other = doubled_area(corners(points_of(loops[k])));
            &&& contour matches Some(points) ==> {
                let own = doubled_area(points);
                &&& own != 0
                &&& own > 0 ==> -own <= other <= own
                &&& own < 0 ==> own <= other <= -own
                &&& exists|m: int|
                    0 <= m < loops.len() && points == corners(points_of(#[trigger] loops[m]))
            }
            &&& contour is None ==> other == 0
        }),
{
    assert(loop_area(loops[k]) >= 0);
}

proof fn lemma_reversed_upto(line: Seq<(int, int)>, m: int)
    requires
        0 <= m < line.len(),
    ensures
        area_upto(line.reverse(), m) == area_upto(line, line.len() - 1 - m) - area_upto(
            line,
            line.len() - 1,
        ),
    decreases m,
{
    reveal(cross);
    let n = line.len() as int;
    let back = line.reverse();
    if m > 0 {
        lemma_reversed_upto(line, m - 1);
        lemma_small_mod(m as nat, n as nat);
        lemma_small_mod((n - m) as nat, n as nat);
        assert(back[m - 1] == line[n - m] && back[m] == line[n - 1 - m]);
        let a = line[n - m];
        let b = line[n - 1 - m];
        assert(a.0 * b.1 - a.1 * b.0 == -(b.0 * a.1 - b.1 * a.0)) by (nonlinear_arith);
        assert(area_upto(line, n - m) == area_upto(line, n - m - 1) + cross(b, a));
    }
}

/// A polygon that is turned around has the same area with the other sign.
pub proof fn law_turning_around_negates_the_area(line: Seq<(int, int)>)
    ensures
        doubled_area(line.reverse()) == -doubled_area(line),
{
    let n = line.len() as int;
    if n > 0 {
        reveal(cross);
        lemma_reversed_upto(line, n - 1);
        let back = line.reverse();
        assert(n % n == 0) by (nonlinear_arith)
            requires
                n > 0,
        ;
        assert(back[n - 1] == line[0] && back[0] == line[n - 1]);
        let a = line[0];
        let b = line[n - 1];
        assert(a.0 * b.1 - a.1 * b.0 == -(b.0 * a.1 - b.1 * a.0)) by (nonlinear_arith);
        assert(area_upto(line, 0) == 0);
    }
}

} // verus!
