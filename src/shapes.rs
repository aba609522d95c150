//! Integer rasterisation of lines, squares and a wireframe cube.
use iter_tools::Itertools;
use vstd::prelude::*;

verus! {

/// A point of the plane, as the library's functions produce it.
pub type Point = (i32, i32);

/// The integer view of a sequence of points.
pub open spec fn points_view(s: Seq<Point>) -> Seq<(int, int)> {
    s.map_values(|p: Point| (p.0 as int, p.1 as int))
}

pub open spec fn abs_diff(a: int, b: int) -> int {
    if a < b { b - a } else { a - b }
}

/// The coordinate `k` steps from `a` in the direction of `b`.
pub open spec fn toward(a: int, b: int, k: int) -> int {
    if a < b { a + k } else { a - k }
}

/// One Bresenham step on a line spanning `dx` columns and `dy` rows, from the point
/// reached after `i` column steps and `j` row steps. The error term of the usual
/// formulation is `dx * (1 + j) - dy * (1 + i)` there.
pub open spec fn bresenham_next(dx: int, dy: int, i: int, j: int) -> (int, int) {
    let e2 = 2 * (dx * (1 + j) - dy * (1 + i));
    (if e2 > -dy { i + 1 } else { i }, if e2 < dx { j + 1 } else { j })
}

/// The step counts visited by Bresenham's walk from `(i, j)` up to `(dx, dy)`.
pub open spec fn bresenham_walk(dx: int, dy: int, i: int, j: int) -> Seq<(int, int)>
    decreases (dx - i) + (dy - j),
    when 0 <= i <= dx && 0 <= j <= dy
    via bresenham_walk_decreases
{
    if i == dx && j == dy {
        seq![(i, j)]
    } else {
        let n = bresenham_next(dx, dy, i, j);
        seq![(i, j)] + bresenham_walk(dx, dy, n.0, n.1)
    }
}

/// A step from a point short of the end stays within the box and advances.
pub proof fn lemma_bresenham_next(dx: int, dy: int, i: int, j: int)
    requires
        0 <= i <= dx,
        0 <= j <= dy,
        !(i == dx && j == dy),
    ensures
        i <= bresenham_next(dx, dy, i, j).0 <= dx,
        j <= bresenham_next(dx, dy, i, j).1 <= dy,
        bresenham_next(dx, dy, i, j).0 <= i + 1,
        bresenham_next(dx, dy, i, j).1 <= j + 1,
        bresenham_next(dx, dy, i, j).0 + bresenham_next(dx, dy, i, j).1 > i + j,
{
    if i == dx {
        assert(dx * (1 + j) - dy * (1 + i) <= -dy) by (nonlinear_arith)
            requires i == dx, j < dy, 0 <= dx;
    }
    if j == dy {
        assert(dx * (1 + j) - dy * (1 + i) >= dx) by (nonlinear_arith)
            requires j == dy, i < dx, 0 <= dy;
    }
}

#[via_fn]
proof fn bresenham_walk_decreases(dx: int, dy: int, i: int, j: int) {
    if 0 <= i <= dx && 0 <= j <= dy && !(i == dx && j == dy) {
        lemma_bresenham_next(dx, dy, i, j);
    }
}

pub open spec fn walk_within(w: Seq<(int, int)>, i: int, j: int, dx: int, dy: int) -> bool {
    forall|k: int| 0 <= k < w.len() ==> i <= #[trigger] w[k].0 <= dx && j <= w[k].1 <= dy
}

pub open spec fn walk_unit_steps(w: Seq<(int, int)>) -> bool {
    forall|k: int|
        0 <= k < w.len() - 1 ==> w[k].0 <= #[trigger] w[k + 1].0 <= w[k].0 + 1 && w[k].1 <= w[k
            + 1].1 <= w[k].1 + 1
}

pub open spec fn walk_advancing(w: Seq<(int, int)>) -> bool {
    forall|a: int, b: int|
        0 <= a < b < w.len() ==> #[trigger] w[a].0 + w[a].1 < #[trigger] w[b].0 + w[b].1
}

/// Bresenham's walk starts where asked, ends at `(dx, dy)`, stays within the box,
/// moves by at most one along each axis per step, and always moves forward.
pub proof fn lemma_bresenham_walk(dx: int, dy: int, i: int, j: int)
    requires
        0 <= i <= dx,
        0 <= j <= dy,
    ensures
        bresenham_walk(dx, dy, i, j).len() >= 1,
        bresenham_walk(dx, dy, i, j)[0] == (i, j),
        bresenham_walk(dx, dy, i, j).last() == (dx, dy),
        walk_within(bresenham_walk(dx, dy, i, j), i, j, dx, dy),
        walk_unit_steps(bresenham_walk(dx, dy, i, j)),
        walk_advancing(bresenham_walk(dx, dy, i, j)),
    decreases (dx - i) + (dy - j),
{
    let w = bresenham_walk(dx, dy, i, j);
    if !(i == dx && j == dy) {
        lemma_bresenham_next(dx, dy, i, j);
        let n = bresenham_next(dx, dy, i, j);
        lemma_bresenham_walk(dx, dy, n.0, n.1);
        let wn = bresenham_walk(dx, dy, n.0, n.1);
        assert(w == seq![(i, j)] + wn);
        assert forall|k: int| 1 <= k < w.len() implies w[k] == wn[k - 1] by {}
        assert forall|k: int| 0 <= k < w.len() implies i <= #[trigger] w[k].0 <= dx && j <= w[k].1
            <= dy by {
            if k > 0 {
                assert(w[k] == wn[k - 1]);
            }
        }
        assert forall|k: int| 0 <= k < w.len() - 1 implies w[k].0 <= #[trigger] w[k + 1].0 <= w[k].0
            + 1 && w[k].1 <= w[k + 1].1 <= w[k].1 + 1 by {
            assert(w[k + 1] == wn[k]);
            if k > 0 {
                assert(w[k] == wn[k - 1]);
                assert(wn[(k - 1) + 1] == wn[k]);
            } else {
                assert(wn[0] == n);
            }
        }
        assert forall|a: int, b: int| 0 <= a < b < w.len() implies #[trigger] w[a].0 + w[a].1
            < #[trigger] w[b].0 + w[b].1 by {
            if a > 0 {
                assert(w[a] == wn[a - 1]);
            }
            assert(w[b] == wn[b - 1]);
        }
    }
}

pub open spec fn between(v: int, a: int, b: int) -> bool {
    if a <= b { a <= v <= b } else { b <= v <= a }
}

/// The points that Bresenham's algorithm visits walking from `(x1, y1)` to `(x2, y2)`.
pub open spec fn bresenham_line(x1: int, y1: int, x2: int, y2: int) -> Seq<(int, int)> {
    bresenham_walk(abs_diff(x1, x2), abs_diff(y1, y2), 0, 0).map_values(
        |c: (int, int)| (toward(x1, x2, c.0), toward(y1, y2, c.1)),
    )
}

/// Walks from `(x1, y1)` to `(x2, y2)` with Bresenham's algorithm.
fn bresenham_points(x1: i32, y1: i32, x2: i32, y2: i32) -> (r: Vec<Point>)
    ensures
        points_view(r@) == bresenham_line(x1 as int, y1 as int, x2 as int, y2 as int),
{
    let mut points: Vec<Point> = Vec::new();
    let dx: i64 = if x1 < x2 { x2 as i64 - x1 as i64 } else { x1 as i64 - x2 as i64 };
    let dy: i64 = if y1 < y2 { y2 as i64 - y1 as i64 } else { y1 as i64 - y2 as i64 };
    let sx: i64 = if x1 < x2 { 1 } else { -1 };
    let sy: i64 = if y1 < y2 { 1 } else { -1 };
    let mut err: i64 = dx - dy;
    let mut x: i64 = x1 as i64;
    let mut y: i64 = y1 as i64;
    let ghost f = |c: (int, int)| (toward(x1 as int, x2 as int, c.0), toward(y1 as int, y2 as int, c.1));
    let ghost full = bresenham_walk(dx as int, dy as int, 0, 0).map_values(f);
    let ghost mut i: int = 0;
    let ghost mut j: int = 0;
    points.push((x as i32, y as i32));
    proof {
        assert(points_view(points@) =~= seq![f((0, 0))]);
    }
    while !(x == x2 as i64 && y == y2 as i64)
        invariant
            0 <= i <= dx,
            0 <= j <= dy,
            dx == abs_diff(x1 as int, x2 as int),
            dy == abs_diff(y1 as int, y2 as int),
            sx == (if x1 < x2 { 1int } else { -1int }),
            sy == (if y1 < y2 { 1int } else { -1int }),
            x == toward(x1 as int, x2 as int, i),
            y == toward(y1 as int, y2 as int, j),
            err == dx * (1 + j) - dy * (1 + i),
            -2 * dy <= err <= 2 * dx,
            full == bresenham_walk(dx as int, dy as int, 0, 0).map_values(f),
            f == (|c: (int, int)| (toward(x1 as int, x2 as int, c.0), toward(y1 as int, y2 as int, c.1))),
            points_view(points@) + bresenham_walk(dx as int, dy as int, i, j).map_values(f).drop_first()
                == full,
        decreases (dx - i) + (dy - j),
    {
        proof {
            lemma_bresenham_next(dx as int, dy as int, i, j);
        }
        let ghost n = bresenham_next(dx as int, dy as int, i, j);
        let ghost w = bresenham_walk(dx as int, dy as int, i, j).map_values(f);
        let ghost wn = bresenham_walk(dx as int, dy as int, n.0, n.1).map_values(f);
        let ghost pv = points_view(points@);
        let e2 = 2 * err;
        let ghost old_err = err;
        if e2 > -dy {
            err = err - dy;
            x = x + sx;
        }
        if e2 < dx {
            err = err + dx;
            y = y + sy;
        }
        proof {
            assert(dy * (1 + (i + 1)) == dy * (1 + i) + dy) by (nonlinear_arith);
            assert(dx * (1 + (j + 1)) == dx * (1 + j) + dx) by (nonlinear_arith);
            i = n.0;
            j = n.1;
            assert(w.drop_first() =~= wn);
        }
        points.push((x as i32, y as i32));
        proof {
            assert(points_view(points@) =~= pv.push(f(n)));
            assert(wn =~= seq![f(n)] + wn.drop_first());
            assert(points_view(points@) + wn.drop_first() =~= pv + wn);
        }
    }
    proof {
        assert(bresenham_walk(dx as int, dy as int, i, j).map_values(f).drop_first() =~= Seq::empty());
        assert(points_view(points@) =~= full);
    }
    points
}

/// Consecutive points differ by at most one along each axis.
pub open spec fn adjacent_steps(l: Seq<(int, int)>) -> bool {
    forall|k: int|
        0 <= k < l.len() - 1 ==> abs_diff(l[k].0, #[trigger] l[k + 1].0) <= 1 && abs_diff(
            l[k].1,
            l[k + 1].1,
        ) <= 1
}

/// Every point lies in the box spanned by `(x1, y1)` and `(x2, y2)`.
pub open spec fn within_box(l: Seq<(int, int)>, x1: int, y1: int, x2: int, y2: int) -> bool {
    forall|k: int| 0 <= k < l.len() ==> between(#[trigger] l[k].0, x1, x2) && between(l[k].1, y1, y2)
}

/// A Bresenham walk starts at its first endpoint and ends at its second, moves by at
/// most one unit along each axis between consecutive points, never leaves the box
/// spanned by its endpoints, and visits no point twice.
proof fn lemma_bresenham_line_shape(x1: int, y1: int, x2: int, y2: int)
    ensures
        bresenham_line(x1, y1, x2, y2).len() >= 1,
        bresenham_line(x1, y1, x2, y2)[0] == (x1, y1),
        bresenham_line(x1, y1, x2, y2).last() == (x2, y2),
        adjacent_steps(bresenham_line(x1, y1, x2, y2)),
        within_box(bresenham_line(x1, y1, x2, y2), x1, y1, x2, y2),
        bresenham_line(x1, y1, x2, y2).no_duplicates(),
{
    let dx = abs_diff(x1, x2);
    let dy = abs_diff(y1, y2);
    lemma_bresenham_walk(dx, dy, 0, 0);
    let w = bresenham_walk(dx, dy, 0, 0);
    let l = bresenham_line(x1, y1, x2, y2);
    assert(l.len() == w.len());
    assert(l.last() == l[l.len() - 1]);
    assert forall|k: int| 0 <= k < l.len() - 1 implies abs_diff(l[k].0, #[trigger] l[k + 1].0)
        <= 1 && abs_diff(l[k].1, l[k + 1].1) <= 1 by {
        assert(w[k].0 <= w[k + 1].0 <= w[k].0 + 1);
    }
    assert forall|a: int, b: int| 0 <= a < l.len() && 0 <= b < l.len() && a != b implies l[a]
        != l[b] by {
        if a < b {
            assert(w[a].0 + w[a].1 < w[b].0 + w[b].1);
        } else {
            assert(w[b].0 + w[b].1 < w[a].0 + w[a].1);
        }
    }
}

/// Whether `(x1, y1)` comes no later than `(x2, y2)` in lexicographic order.
pub open spec fn ordered_endpoints(x1: int, y1: int, x2: int, y2: int) -> bool {
    x1 < x2 || (x1 == x2 && y1 <= y2)
}

/// The points of the line from `(x1, y1)` to `(x2, y2)`: Bresenham's walk from the
/// lexicographically smaller endpoint to the other one, read backwards when the line
/// is asked for the other way round. The point set does not depend on the order of
/// the endpoints.
pub open spec fn line_spec(x1: int, y1: int, x2: int, y2: int) -> Seq<(int, int)> {
    if ordered_endpoints(x1, y1, x2, y2) {
        bresenham_line(x1, y1, x2, y2)
    } else {
        bresenham_line(x2, y2, x1, y1).reverse()
    }
}

/// The points of `v` in reverse order.
fn reversed_points(v: &Vec<Point>) -> (r: Vec<Point>)
    ensures
        r@ == v@.reverse(),
{
    let mut r: Vec<Point> = Vec::new();
    let n = v.len();
    let mut k: usize = 0;
    while k < n
        invariant
            0 <= k <= n,
            n == v@.len(),
            r@ == v@.reverse().take(k as int),
        decreases n - k,
    {
        r.push(v[n - 1 - k]);
        k = k + 1;
        proof {
            assert(r@ =~= v@.reverse().take(k as int));
        }
    }
    proof {
        assert(v@.reverse().take(k as int) =~= v@.reverse());
    }
    r
}

/// Rasterises the line from `(x1, y1)` to `(x2, y2)` with Bresenham's algorithm.
/// The first point is `(x1, y1)` and the last `(x2, y2)`; swapping the endpoints
/// reverses the sequence.
pub fn points_for_line(x1: i32, y1: i32, x2: i32, y2: i32) -> (r: Vec<Point>)
    ensures
        points_view(r@) == line_spec(x1 as int, y1 as int, x2 as int, y2 as int),
{
    if x1 < x2 || (x1 == x2 && y1 <= y2) {
        bresenham_points(x1, y1, x2, y2)
    } else {
        let forward = bresenham_points(x2, y2, x1, y1);
        let r = reversed_points(&forward);
        proof {
            assert(points_view(r@) =~= points_view(forward@).reverse());
        }
        r
    }
}

/// A rasterised line starts at its first endpoint and ends at its second, moves by
/// at most one unit along each axis between consecutive points, never leaves the
/// box spanned by its endpoints, and visits no point twice.
pub proof fn lemma_line_shape(x1: int, y1: int, x2: int, y2: int)
    ensures
        line_spec(x1, y1, x2, y2).len() >= 1,
        line_spec(x1, y1, x2, y2)[0] == (x1, y1),
        line_spec(x1, y1, x2, y2).last() == (x2, y2),
        adjacent_steps(line_spec(x1, y1, x2, y2)),
        within_box(line_spec(x1, y1, x2, y2), x1, y1, x2, y2),
        line_spec(x1, y1, x2, y2).no_duplicates(),
{
    if ordered_endpoints(x1, y1, x2, y2) {
        lemma_bresenham_line_shape(x1, y1, x2, y2);
    } else {
        lemma_bresenham_line_shape(x2, y2, x1, y1);
        let b = bresenham_line(x2, y2, x1, y1);
        let l = line_spec(x1, y1, x2, y2);
        let n = b.len();
        assert(l.len() == n);
        assert(l[0] == b[n - 1]);
        assert(l.last() == b[0]);
        assert forall|k: int| 0 <= k < l.len() - 1 implies abs_diff(l[k].0, #[trigger] l[k + 1].0)
            <= 1 && abs_diff(l[k].1, l[k + 1].1) <= 1 by {
            assert(l[k] == b[(n - 2 - k) + 1]);
            assert(l[k + 1] == b[n - 2 - k]);
        }
        assert forall|k: int| 0 <= k < l.len() implies between(#[trigger] l[k].0, x1, x2) && between(
            l[k].1,
            y1,
            y2,
        ) by {
            assert(l[k] == b[n - 1 - k]);
        }
        assert forall|a: int, c: int| 0 <= a < l.len() && 0 <= c < l.len() && a != c implies l[a]
            != l[c] by {
            assert(l[a] == b[n - 1 - a]);
            assert(l[c] == b[n - 1 - c]);
        }
    }
}

/// Swapping a line's endpoints reverses its sequence of points.
pub proof fn lemma_line_reverse(x1: int, y1: int, x2: int, y2: int)
    ensures
        line_spec(x2, y2, x1, y1) == line_spec(x1, y1, x2, y2).reverse(),
{
    if x1 == x2 && y1 == y2 {
        let b = bresenham_line(x1, y1, x1, y1);
        assert(bresenham_walk(0, 0, 0, 0) == seq![(0int, 0int)]);
        assert(b.reverse() =~= b);
    } else if !ordered_endpoints(x1, y1, x2, y2) {
        let b = bresenham_line(x2, y2, x1, y1);
        assert(b.reverse().reverse() =~= b);
    }
}

/// Keeps the first occurrence of each element, in the order of the input.
pub open spec fn first_occurrences<A>(s: Seq<A>) -> Seq<A>
    decreases s.len(),
{
    if s.len() == 0 {
        Seq::empty()
    } else {
        let d = first_occurrences(s.drop_last());
        if d.contains(s.last()) {
            d
        } else {
            d.push(s.last())
        }
    }
}

/// Dropping repeats leaves no duplicate and keeps every element.
pub proof fn lemma_first_occurrences<A>(s: Seq<A>)
    ensures
        first_occurrences(s).no_duplicates(),
        forall|p: A| #[trigger] first_occurrences(s).contains(p) <==> s.contains(p),
    decreases s.len(),
{
    if s.len() > 0 {
        lemma_first_occurrences(s.drop_last());
        let d = first_occurrences(s.drop_last());
        assert forall|p: A| s.contains(p) <==> (s.drop_last().contains(p) || p == s.last()) by {
            if s.contains(p) {
                let k = choose|k: int| 0 <= k < s.len() && s[k] == p;
                if k < s.len() - 1 {
                    assert(s.drop_last()[k] == p);
                }
            }
            if p == s.last() {
                assert(s[s.len() - 1] == p);
            }
            if s.drop_last().contains(p) {
                let k = choose|k: int| 0 <= k < s.len() - 1 && s.drop_last()[k] == p;
                assert(s[k] == p);
            }
        }
        if !d.contains(s.last()) {
            let e = d.push(s.last());
            assert forall|p: A| e.contains(p) <==> (d.contains(p) || p == s.last()) by {
                if e.contains(p) {
                    let k = choose|k: int| 0 <= k < e.len() && e[k] == p;
                    if k < d.len() {
                        assert(d[k] == p);
                    }
                }
                if d.contains(p) {
                    let k = choose|k: int| 0 <= k < d.len() && d[k] == p;
                    assert(e[k] == p);
                }
                if p == s.last() {
                    assert(e[d.len() as int] == p);
                }
            }
        }
    }
}

/// Mapping points to their integer view commutes with dropping repeats.
pub proof fn lemma_points_view_first_occurrences(s: Seq<Point>)
    ensures
        points_view(first_occurrences(s)) == first_occurrences(points_view(s)),
    decreases s.len(),
{
    if s.len() > 0 {
        lemma_points_view_first_occurrences(s.drop_last());
        let d = first_occurrences(s.drop_last());
        let v = points_view(s);
        assert(points_view(s.drop_last()) =~= v.drop_last());
        assert(v.last() == (s.last().0 as int, s.last().1 as int));
        assert(d.contains(s.last()) <==> points_view(d).contains(v.last())) by {
            if points_view(d).contains(v.last()) {
                let k = choose|k: int| 0 <= k < d.len() && points_view(d)[k] == v.last();
                assert(d[k] == s.last());
            }
            if d.contains(s.last()) {
                let k = choose|k: int| 0 <= k < d.len() && d[k] == s.last();
                assert(points_view(d)[k] == v.last());
            }
        }
        assert(points_view(d.push(s.last())) =~= points_view(d).push(v.last()));
    }
}

/// Relies on `Itertools::unique` of itertools, reached through iter_tools: it yields
/// each element the first time it is met, in iteration order, and skips later repeats.
#[verifier::external_body]
fn unique_points(points: Vec<Point>) -> (r: Vec<Point>)
    ensures
        r@ == first_occurrences(points@),
{
    points.into_iter().unique().collect()
}

/// The perimeter of the square with corners `(x1, y1)` and `(x1 + r, y1 + r)`: top,
/// right, bottom and left sides in turn, each corner kept where it first appears.
pub open spec fn square_spec(x1: int, y1: int, r: int) -> Seq<(int, int)> {
    let x2 = x1 + r;
    let y2 = y1 + r;
    first_occurrences(
        line_spec(x1, y1, x2, y1) + line_spec(x2, y1, x2, y2) + line_spec(x2, y2, x1, y2)
            + line_spec(x1, y2, x1, y1),
    )
}

pub open spec fn fits_i32(v: int) -> bool {
    i32::MIN <= v <= i32::MAX
}

/// Traces the perimeter of the square with corners `(x1, y1)` and `(x1 + r, y1 + r)`.
pub fn points_for_square(x1: i32, y1: i32, r: i32) -> (res: Vec<Point>)
    requires
        fits_i32(x1 + r),
        fits_i32(y1 + r),
    ensures
        points_view(res@) == square_spec(x1 as int, y1 as int, r as int),
{
    let x2 = x1 + r;
    let y2 = y1 + r;
    let mut points: Vec<Point> = points_for_line(x1, y1, x2, y1);
    let mut right = points_for_line(x2, y1, x2, y2);
    let mut bottom = points_for_line(x2, y2, x1, y2);
    let mut left = points_for_line(x1, y2, x1, y1);
    let ghost (a, b, c, d) = (points@, right@, bottom@, left@);
    points.append(&mut right);
    points.append(&mut bottom);
    points.append(&mut left);
    proof {
        assert(points@ == a + b + c + d);
        assert(points_view(a + b + c + d) =~= points_view(a) + points_view(b) + points_view(c)
            + points_view(d));
        lemma_points_view_first_occurrences(points@);
    }
    unique_points(points)
}

/// The point with its four thickening neighbours to the lower right.
pub open spec fn thick_point(p: (int, int)) -> Seq<(int, int)> {
    seq![p, (p.0 + 1, p.1 + 1), (p.0 + 1, p.1 + 2), (p.0 + 2, p.1 + 1), (p.0 + 2, p.1 + 2)]
}

/// Each point followed by its thickening neighbours.
pub open spec fn thicken(s: Seq<(int, int)>) -> Seq<(int, int)>
    decreases s.len(),
{
    if s.len() == 0 {
        Seq::empty()
    } else {
        thicken(s.drop_last()) + thick_point(s.last())
    }
}

/// Every point of `s` can be moved by two along both axes without leaving `i32`.
pub open spec fn thickenable(s: Seq<Point>) -> bool {
    forall|k: int| 0 <= k < s.len() ==> (#[trigger] s[k]).0 + 2 <= i32::MAX && s[k].1 + 2 <= i32::MAX
}

/// Appends each point of `pts` to `out`, followed by its thickening neighbours.
fn push_thickened(out: &mut Vec<Point>, pts: &Vec<Point>)
    requires
        thickenable(pts@),
    ensures
        points_view(final(out)@) == points_view(old(out)@) + thicken(points_view(pts@)),
{
    let mut k: usize = 0;
    while k < pts.len()
        invariant
            0 <= k <= pts.len(),
            thickenable(pts@),
            points_view(out@) == points_view(old(out)@) + thicken(points_view(pts@.take(k as int))),
        decreases pts.len() - k,
    {
        let ghost before = points_view(out@);
        let p = pts[k];
        out.push(p);
        out.push((p.0 + 1, p.1 + 1));
        out.push((p.0 + 1, p.1 + 2));
        out.push((p.0 + 2, p.1 + 1));
        out.push((p.0 + 2, p.1 + 2));
        proof {
            let pv = points_view(pts@.take(k as int + 1));
            assert(pv.drop_last() =~= points_view(pts@.take(k as int)));
            assert(pv.last() == (p.0 as int, p.1 as int));
            assert(points_view(out@) =~= before + thick_point(pv.last()));
        }
        k = k + 1;
    }
    proof {
        assert(pts@.take(k as int) =~= pts@);
    }
}

/// Every point of a square's perimeter lies in the box spanned by its corners.
pub proof fn lemma_square_within(x1: int, y1: int, r: int)
    ensures
        within_box(square_spec(x1, y1, r), x1, y1, x1 + r, y1 + r),
{
    let x2 = x1 + r;
    let y2 = y1 + r;
    let (a, b, c, d) = (
        line_spec(x1, y1, x2, y1),
        line_spec(x2, y1, x2, y2),
        line_spec(x2, y2, x1, y2),
        line_spec(x1, y2, x1, y1),
    );
    lemma_line_shape(x1, y1, x2, y1);
    lemma_line_shape(x2, y1, x2, y2);
    lemma_line_shape(x2, y2, x1, y2);
    lemma_line_shape(x1, y2, x1, y1);
    let all = a + b + c + d;
    lemma_first_occurrences(all);
    let sq = square_spec(x1, y1, r);
    assert forall|k: int| 0 <= k < sq.len() implies between(#[trigger] sq[k].0, x1, x2) && between(
        sq[k].1,
        y1,
        y2,
    ) by {
        assert(sq.contains(sq[k]));
        let m = choose|m: int| 0 <= m < all.len() && all[m] == sq[k];
        if m < a.len() {
            assert(all[m] == a[m]);
            assert(between(a[m].0, x1, x2) && between(a[m].1, y1, y1));
        } else if m < a.len() + b.len() {
            let i = m - a.len();
            assert(all[m] == b[i]);
            assert(between(b[i].0, x2, x2) && between(b[i].1, y1, y2));
        } else if m < a.len() + b.len() + c.len() {
            let i = m - a.len() - b.len();
            assert(all[m] == c[i]);
            assert(between(c[i].0, x2, x1) && between(c[i].1, y2, y2));
        } else {
            let i = m - a.len() - b.len() - c.len();
            assert(all[m] == d[i]);
            assert(between(d[i].0, x1, x1) && between(d[i].1, y2, y1));
        }
    }
}

/// `v` and `v + 2` are both `i32` values.
pub open spec fn fits_thick(v: int) -> bool {
    i32::MIN <= v && v + 2 <= i32::MAX
}

proof fn lemma_box_thickenable(pts: Seq<Point>, x1: int, y1: int, x2: int, y2: int)
    requires
        within_box(points_view(pts), x1, y1, x2, y2),
        fits_thick(x1),
        fits_thick(y1),
        fits_thick(x2),
        fits_thick(y2),
    ensures
        thickenable(pts),
{
    assert forall|k: int| 0 <= k < pts.len() implies (#[trigger] pts[k]).0 + 2 <= i32::MAX && pts[k].1
        + 2 <= i32::MAX by {
        assert(points_view(pts)[k] == (pts[k].0 as int, pts[k].1 as int));
    }
}

/// Division rounding toward zero, as Rust's `/` on signed integers does.
pub open spec fn trunc_div(a: int, b: int) -> int {
    if a >= 0 {
        a / b
    } else {
        -((-a) / b)
    }
}

/// The depth offset of a cube of side `r`.
pub open spec fn cube_offset(r: int) -> int {
    trunc_div(r, 5)
}

/// The corner of the front square of a cube drawn near `v` with side `r`.
pub open spec fn cube_origin(v: int, r: int) -> int {
    v - trunc_div(cube_offset(r), 2)
}

/// Every corner of the cube's wireframe, moved by two, stays an `i32` value.
pub open spec fn cube_fits(x1: int, y1: int, r: int) -> bool {
    let o = cube_offset(r);
    let ox = cube_origin(x1, r);
    let oy = cube_origin(y1, r);
    &&& fits_thick(ox)
    &&& fits_thick(ox + r)
    &&& fits_thick(ox + o)
    &&& fits_thick(ox + r + o)
    &&& fits_thick(oy)
    &&& fits_thick(oy + r)
    &&& fits_thick(oy + o)
    &&& fits_thick(oy + r + o)
}

/// Tells whether a cube of side `r` near `(x1, y1)` can be built in `i32` coordinates.
pub fn cube_in_range(x1: i32, y1: i32, r: i32) -> (b: bool)
    ensures
        b == cube_fits(x1 as int, y1 as int, r as int),
{
    let offset: i64 = (r / 5) as i64;
    let x: i64 = x1 as i64 - offset / 2;
    let y: i64 = y1 as i64 - offset / 2;
    let r: i64 = r as i64;
    let lo: i64 = i32::MIN as i64;
    let hi: i64 = i32::MAX as i64 - 2;
    lo <= x && x <= hi && lo <= x + r && x + r <= hi && lo <= x + offset && x + offset <= hi
        && lo <= x + r + offset && x + r + offset <= hi && lo <= y && y <= hi && lo <= y + r && y
        + r <= hi && lo <= y + offset && y + offset <= hi && lo <= y + r + offset && y + r + offset
        <= hi
}

/// The thickened wireframe of a cube: the front square, the back square shifted by
/// the offset, and the four edges joining their corners, repeats dropped.
pub open spec fn cube_spec(x1: int, y1: int, r: int) -> Seq<(int, int)> {
    let o = cube_offset(r);
    let x = cube_origin(x1, r);
    let y = cube_origin(y1, r);
    first_occurrences(
        thicken(square_spec(x, y, r)) + thicken(square_spec(x + o, y + o, r)) + thicken(
            line_spec(x, y, x + o, y + o),
        ) + thicken(line_spec(x + r, y, x + r + o, y + o)) + thicken(
            line_spec(x, y + r, x + o, y + r + o),
        ) + thicken(line_spec(x + r, y + r, x + r + o, y + r + o)),
    )
}

/// Builds the thickened wireframe of a cube of side `r` drawn near `(x1, y1)`.
pub fn points_for_cube(x1: i32, y1: i32, r: i32) -> (res: Vec<Point>)
    requires
        cube_fits(x1 as int, y1 as int, r as int),
    ensures
        points_view(res@) == cube_spec(x1 as int, y1 as int, r as int),
{
    let offset: i32 = r / 5;
    let x: i32 = x1 - offset / 2;
    let y: i32 = y1 - offset / 2;
    assert(offset == cube_offset(r as int));
    let mut points: Vec<Point> = Vec::new();

    let outer = points_for_square(x, y, r);
    proof {
        lemma_square_within(x as int, y as int, r as int);
        lemma_box_thickenable(outer@, x as int, y as int, x + r, y + r);
    }
    push_thickened(&mut points, &outer);

    let inner = points_for_square(x + offset, y + offset, r);
    proof {
        lemma_square_within(x + offset, y + offset, r as int);
        lemma_box_thickenable(inner@, x + offset, y + offset, x + offset + r, y + offset + r);
    }
    push_thickened(&mut points, &inner);

    let e1 = points_for_line(x, y, x + offset, y + offset);
    proof {
        lemma_line_shape(x as int, y as int, x + offset, y + offset);
        lemma_box_thickenable(e1@, x as int, y as int, x + offset, y + offset);
    }
    push_thickened(&mut points, &e1);

    let e2 = points_for_line(x + r, y, x + r + offset, y + offset);
    proof {
        lemma_line_shape(x + r, y as int, x + r + offset, y + offset);
        lemma_box_thickenable(e2@, x + r, y as int, x + r + offset, y + offset);
    }
    push_thickened(&mut points, &e2);

    let e3 = points_for_line(x, y + r, x + offset, y + r + offset);
    proof {
        lemma_line_shape(x as int, y + r, x + offset, y + r + offset);
        lemma_box_thickenable(e3@, x as int, y + r, x + offset, y + r + offset);
    }
    push_thickened(&mut points, &e3);

    let e4 = points_for_line(x + r, y + r, x + r + offset, y + r + offset);
    proof {
        lemma_line_shape(x + r, y + r, x + r + offset, y + r + offset);
        lemma_box_thickenable(e4@, x + r, y + r, x + r + offset, y + r + offset);
    }
    push_thickened(&mut points, &e4);

    proof {
        lemma_points_view_first_occurrences(points@);
        assert(points_view(points@) =~= thicken(square_spec(x as int, y as int, r as int)) + thicken(
            square_spec(x + offset, y + offset, r as int),
        ) + thicken(line_spec(x as int, y as int, x + offset, y + offset)) + thicken(
            line_spec(x + r, y as int, x + r + offset, y + offset),
        ) + thicken(line_spec(x as int, y + r, x + offset, y + r + offset)) + thicken(
            line_spec(x + r, y + r, x + r + offset, y + r + offset),
        ));
    }
    unique_points(points)
}

/// A square's perimeter visits no point twice.
pub proof fn lemma_square_no_duplicates(x1: int, y1: int, r: int)
    ensures
        square_spec(x1, y1, r).no_duplicates(),
{
    let x2 = x1 + r;
    let y2 = y1 + r;
    lemma_first_occurrences(
        line_spec(x1, y1, x2, y1) + line_spec(x2, y1, x2, y2) + line_spec(x2, y2, x1, y2)
            + line_spec(x1, y2, x1, y1),
    );
}

/// A cube's wireframe visits no point twice.
pub proof fn lemma_cube_no_duplicates(x1: int, y1: int, r: int)
    ensures
        cube_spec(x1, y1, r).no_duplicates(),
{
    let o = cube_offset(r);
    let x = cube_origin(x1, r);
    let y = cube_origin(y1, r);
    lemma_first_occurrences(
        thicken(square_spec(x, y, r)) + thicken(square_spec(x + o, y + o, r)) + thicken(
            line_spec(x, y, x + o, y + o),
        ) + thicken(line_spec(x + r, y, x + r + o, y + o)) + thicken(
            line_spec(x, y + r, x + o, y + r + o),
        ) + thicken(line_spec(x + r, y + r, x + r + o, y + r + o)),
    );
}

} // verus!
