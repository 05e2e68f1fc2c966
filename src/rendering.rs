use vstd::prelude::*;
use vstd::arithmetic::div_mod::lemma_fundamental_div_mod_converse;

verus! {

/// Absolute value of an integer.
pub open spec fn abs(v: int) -> int {
    if v < 0 {
        -v
    } else {
        v
    }
}

/// The unit step that moves `from` towards `to` (-1 when the two are equal).
pub open spec fn step_towards(from: int, to: int) -> int {
    if from < to {
        1
    } else {
        -1
    }
}

/// First state of the walk from `a` to `b`: column, row and error term.
pub open spec fn walk_start(a: (int, int), b: (int, int)) -> (int, int, int) {
    (a.0, a.1, abs(b.0 - a.0) - abs(b.1 - a.1))
}

/// One step of the integer line walk from `a` to `b`. Both the column and the
/// row may advance in the same step.
pub open spec fn walk_step(a: (int, int), b: (int, int), s: (int, int, int)) -> (int, int, int) {
    let dx = abs(b.0 - a.0);
    let dy = -abs(b.1 - a.1);
    let e2 = 2 * s.2;
    let x = if e2 >= dy { s.0 + step_towards(a.0, b.0) } else { s.0 };
    let err1 = if e2 >= dy { s.2 + dy } else { s.2 };
    let y = if e2 <= dx { s.1 + step_towards(a.1, b.1) } else { s.1 };
    let err = if e2 <= dx { err1 + dx } else { err1 };
    (x, y, err)
}

/// State of the walk after `n` steps.
pub open spec fn walk_state(a: (int, int), b: (int, int), n: nat) -> (int, int, int)
    decreases n,
{
    if n == 0 {
        walk_start(a, b)
    } else {
        walk_step(a, b, walk_state(a, b, (n - 1) as nat))
    }
}

/// Pixel visited by the walk after `n` steps.
pub open spec fn walk_pos(a: (int, int), b: (int, int), n: nat) -> (int, int) {
    (walk_state(a, b, n).0, walk_state(a, b, n).1)
}

/// Pixel `p` lies on the line from `a` to `b`: the walk visits it no later
/// than its first arrival at `b`.
pub open spec fn on_line(a: (int, int), b: (int, int), p: (int, int)) -> bool {
    exists|n: nat|
        #![trigger walk_pos(a, b, n)]
        walk_pos(a, b, n) == p && (forall|j: nat| j < n ==> walk_pos(a, b, j) != b)
}

/// Buffer cell `i` of a `width` x `height` surface stored row by row: the
/// pixel (i % width, i / width), for the cells that hold a pixel.
pub open spec fn line_covers(width: int, height: int, a: (int, int), b: (int, int), i: int) -> bool {
    0 <= i < width * height && on_line(a, b, (i % width, i / width))
}

/// Cells `i` whose pixel the walk visited in its first `n` steps.
pub open spec fn painted(width: int, height: int, a: (int, int), b: (int, int), n: nat, i: int) -> bool {
    0 <= i < width * height && exists|j: nat|
        #![trigger walk_pos(a, b, j)]
        j < n && walk_pos(a, b, j) == (i % width, i / width)
}

/// Steps taken so far along the column.
pub open spec fn x_progress(a: (int, int), b: (int, int), s: (int, int, int)) -> int {
    if a.0 < b.0 {
        s.0 - a.0
    } else {
        a.0 - s.0
    }
}

/// Steps taken so far along the row.
pub open spec fn y_progress(a: (int, int), b: (int, int), s: (int, int, int)) -> int {
    if a.1 < b.1 {
        s.1 - a.1
    } else {
        a.1 - s.1
    }
}

/// Steps still to take along both axes.
pub open spec fn walk_measure(a: (int, int), b: (int, int), s: (int, int, int)) -> int {
    (abs(b.0 - a.0) - x_progress(a, b, s)) + (abs(b.1 - a.1) - y_progress(a, b, s))
}

/// What holds of every state of the walk: it never passes `b` on either axis,
/// and the error term is fixed by the progress made.
pub open spec fn walk_inv(a: (int, int), b: (int, int), s: (int, int, int)) -> bool {
    let dx = abs(b.0 - a.0);
    let dy = abs(b.1 - a.1);
    let ex = x_progress(a, b, s);
    let ey = y_progress(a, b, s);
    &&& 0 <= ex <= dx
    &&& 0 <= ey <= dy
    &&& s.2 == dx * (1 + ey) - dy * (1 + ex)
    &&& -2 * dy <= s.2 <= 2 * dx
}

proof fn lemma_walk_start(a: (int, int), b: (int, int))
    ensures
        walk_inv(a, b, walk_start(a, b)),
{
    let dx = abs(b.0 - a.0);
    let dy = abs(b.1 - a.1);
    assert(dx * (1 + 0) - dy * (1 + 0) == dx - dy) by (nonlinear_arith);
}

/// A step away from `b` keeps the invariant and brings the walk closer to `b`.
proof fn lemma_walk_step(a: (int, int), b: (int, int), s: (int, int, int))
    requires
        walk_inv(a, b, s),
        (s.0, s.1) != b,
    ensures
        walk_inv(a, b, walk_step(a, b, s)),
        0 <= walk_measure(a, b, walk_step(a, b, s)) < walk_measure(a, b, s),
{
    let dx = abs(b.0 - a.0);
    let dy = abs(b.1 - a.1);
    let ex = x_progress(a, b, s);
    let ey = y_progress(a, b, s);
    let e2 = 2 * s.2;
    let t = walk_step(a, b, s);
    if ex == dx {
        assert(ey < dy);
        assert(dx * (1 + ey) <= dx * dy) by (nonlinear_arith)
            requires
                dx >= 0,
                1 + ey <= dy,
        ;
        assert(dy * (1 + ex) == dy + dy * dx) by (nonlinear_arith)
            requires
                ex == dx,
        ;
        assert(dx * dy == dy * dx) by (nonlinear_arith);
        assert(e2 < -dy);
    }
    if ey == dy {
        assert(ex < dx);
        assert(dy * (1 + ex) <= dy * dx) by (nonlinear_arith)
            requires
                dy >= 0,
                1 + ex <= dx,
        ;
        assert(dx * (1 + ey) == dx + dx * dy) by (nonlinear_arith)
            requires
                ey == dy,
        ;
        assert(dx * dy == dy * dx) by (nonlinear_arith);
        assert(e2 > dx);
    }
    let ex2 = if e2 >= -dy { ex + 1 } else { ex };
    let ey2 = if e2 <= dx { ey + 1 } else { ey };
    assert(x_progress(a, b, t) == ex2);
    assert(y_progress(a, b, t) == ey2);
    assert(dy * (1 + (ex + 1)) == dy * (1 + ex) + dy) by (nonlinear_arith);
    assert(dx * (1 + (ey + 1)) == dx * (1 + ey) + dx) by (nonlinear_arith);
}

/// The walk reaches every state it is said to, and stays within its invariant.
proof fn lemma_walk_inv(a: (int, int), b: (int, int), n: nat)
    requires
        forall|j: nat| j < n ==> walk_pos(a, b, j) != b,
    ensures
        walk_inv(a, b, walk_state(a, b, n)),
    decreases n,
{
    if n == 0 {
        lemma_walk_start(a, b);
    } else {
        let m = (n - 1) as nat;
        lemma_walk_inv(a, b, m);
        assert(walk_pos(a, b, m) != b);
        lemma_walk_step(a, b, walk_state(a, b, m));
    }
}

/// Painting the pixel of step `n` extends the cells painted so far by that
/// pixel's cell.
proof fn lemma_paint_step(width: int, height: int, a: (int, int), b: (int, int), n: nat, i: int)
    ensures
        painted(width, height, a, b, n + 1, i) == (painted(width, height, a, b, n, i) || (0 <= i
            < width * height && walk_pos(a, b, n) == (i % width, i / width))),
{
    if painted(width, height, a, b, n + 1, i) {
        let j = choose|j: nat| j < n + 1 && walk_pos(a, b, j) == (i % width, i / width);
        if j < n {
            assert(painted(width, height, a, b, n, i));
        }
    }
    if 0 <= i < width * height && walk_pos(a, b, n) == (i % width, i / width) {
        assert(painted(width, height, a, b, n + 1, i));
    }
}

/// Once the walk stands at `b` after `n` steps and not before, the cells it
/// painted are exactly the cells on the line.
proof fn lemma_painted_complete(width: int, height: int, a: (int, int), b: (int, int), n: nat, i: int)
    requires
        walk_pos(a, b, n) == b,
        forall|j: nat| j < n ==> walk_pos(a, b, j) != b,
    ensures
        painted(width, height, a, b, n + 1, i) == line_covers(width, height, a, b, i),
{
    let p = (i % width, i / width);
    if painted(width, height, a, b, n + 1, i) {
        let j = choose|j: nat| j < n + 1 && walk_pos(a, b, j) == p;
        assert(forall|k: nat| k < j ==> walk_pos(a, b, k) != b);
        assert(on_line(a, b, p));
    }
    if line_covers(width, height, a, b, i) {
        let m = choose|m: nat|
            walk_pos(a, b, m) == p && (forall|j: nat| j < m ==> walk_pos(a, b, j) != b);
        if m > n {
            assert(walk_pos(a, b, n) != b);
        }
        assert(painted(width, height, a, b, n + 1, i));
    }
}

/// Cell `i` holds the pixel in column `x` and row `y` exactly when it is the
/// cell `y * width + x`; cells past `width * height` hold no pixel.
proof fn lemma_cell(width: int, height: int, x: int, y: int, i: int)
    requires
        width >= 0,
        height >= 0,
        0 <= i < width * height,
    ensures
        0 <= i % width < width,
        0 <= i / width < height,
        (0 <= x < width && 0 <= y < height) ==> (((i % width, i / width) == (x, y)) == (i == y
            * width + x)),
{
    assert(width > 0) by (nonlinear_arith)
        requires
            width >= 0,
            height >= 0,
            0 <= i < width * height,
    ;
    assert(i == width * (i / width) + i % width && 0 <= i % width < width) by (nonlinear_arith)
        requires
            width > 0,
    ;
    assert(0 <= i / width < height) by (nonlinear_arith)
        requires
            width > 0,
            i == width * (i / width) + i % width,
            0 <= i % width < width,
            0 <= i < width * height,
    ;
    if 0 <= x < width && 0 <= y < height && i == y * width + x {
        lemma_fundamental_div_mod_converse(i, width, y, x);
    }
    if (i % width, i / width) == (x, y) {
        assert(i == y * width + x) by (nonlinear_arith)
            requires
                i == width * (i / width) + i % width,
                x == i % width,
                y == i / width,
        ;
    }
}

/// A line from `a` to `a` is the single pixel `a`.
pub proof fn lemma_degenerate_line(a: (int, int), p: (int, int))
    ensures
        on_line(a, a, p) == (p == a),
{
    assert(walk_pos(a, a, 0) == a);
    if on_line(a, a, p) {
        let n = choose|n: nat|
            walk_pos(a, a, n) == p && (forall|j: nat| j < n ==> walk_pos(a, a, j) != a);
        if n > 0 {
            assert(walk_pos(a, a, 0) != a);
        }
    }
}

/// Both endpoints of a line lie on it: the walk from `a` arrives at `b`.
pub proof fn lemma_line_endpoints(a: (int, int), b: (int, int))
    ensures
        on_line(a, b, a),
        on_line(a, b, b),
{
    assert(walk_pos(a, b, 0) == a);
    assert(forall|j: nat| j < 0 ==> walk_pos(a, b, j) != b);
    lemma_walk_start(a, b);
    lemma_walk_reaches(a, b, 0);
}

/// From a step `n` that the walk reaches before arriving at `b`, it arrives
/// at `b` in a later step.
proof fn lemma_walk_reaches(a: (int, int), b: (int, int), n: nat)
    requires
        forall|j: nat| j < n ==> walk_pos(a, b, j) != b,
    ensures
        on_line(a, b, b),
    decreases walk_measure(a, b, walk_state(a, b, n)),
{
    lemma_walk_inv(a, b, n);
    if walk_pos(a, b, n) == b {
        assert(on_line(a, b, b));
    } else {
        lemma_walk_step(a, b, walk_state(a, b, n));
        assert forall|j: nat| j < n + 1 implies walk_pos(a, b, j) != b by {
            if j < n {
            }
        }
        lemma_walk_reaches(a, b, n + 1);
    }
}

/// Draws a straight line of `color` from `p0` to `p1` into `buffer`, a
/// `width` x `height` surface stored row by row.
///
/// The line is walked with integer steps only (Bresenham): an error term decides
/// at each step whether the column, the row, or both advance. Pixels of the
/// walk that fall outside the surface are skipped, and the walk goes on.
pub fn draw_line(
    buffer: &mut [u32],
    width: usize,
    height: usize,
    p0: (usize, usize),
    p1: (usize, usize),
    color: u32,
)
    requires
        width * height <= old(buffer)@.len(),
    ensures
        final(buffer)@.len() == old(buffer)@.len(),
        forall|i: int|
            0 <= i < old(buffer)@.len() ==> final(buffer)@[i] == if line_covers(
                width as int,
                height as int,
                (p0.0 as int, p0.1 as int),
                (p1.0 as int, p1.1 as int),
                i,
            ) {
                color
            } else {
                old(buffer)@[i]
            },
{
    let ghost a = (p0.0 as int, p0.1 as int);
    let ghost b = (p1.0 as int, p1.1 as int);
    let ghost w = width as int;
    let ghost h = height as int;
    let ghost start = old(buffer)@;
    let len = buffer.len();

    let x1 = p1.0 as i128;
    let y1 = p1.1 as i128;
    let mut x = p0.0 as i128;
    let mut y = p0.1 as i128;

    let dx: i128 = if x < x1 { x1 - x } else { x - x1 };
    let sx: i128 = if x < x1 { 1 } else { -1 };
    let dy: i128 = if y < y1 { y - y1 } else { y1 - y };
    let sy: i128 = if y < y1 { 1 } else { -1 };

    let mut err: i128 = dx + dy;
    let ghost mut k: nat = 0;
    proof {
        lemma_walk_start(a, b);
    }

    loop
        invariant_except_break
            forall|i: int|
                0 <= i < start.len() ==> buffer@[i] == if painted(w, h, a, b, k, i) {
                    color
                } else {
                    start[i]
                },
        invariant
            (x as int, y as int, err as int) == walk_state(a, b, k),
            walk_inv(a, b, walk_state(a, b, k)),
            forall|j: nat| j < k ==> walk_pos(a, b, j) != b,
            a == (p0.0 as int, p0.1 as int),
            b == (p1.0 as int, p1.1 as int),
            w == width as int,
            h == height as int,
            dx == abs(b.0 - a.0),
            dy == -abs(b.1 - a.1),
            sx == step_towards(a.0, b.0),
            sy == step_towards(a.1, b.1),
            x1 == b.0,
            y1 == b.1,
            w * h <= start.len(),
            start.len() == len,
            buffer@.len() == start.len(),
        ensures
            buffer@.len() == start.len(),
            forall|i: int|
                0 <= i < start.len() ==> buffer@[i] == if line_covers(w, h, a, b, i) {
                    color
                } else {
                    start[i]
                },
        decreases walk_measure(a, b, (x as int, y as int, err as int)),
    {
        if x >= 0 && x < width as i128 && y >= 0 && y < height as i128 {
            let ghost xi = x as int;
            let ghost yi = y as int;
            assert(0 <= yi * w <= yi * w + xi < w * h) by (nonlinear_arith)
                requires
                    0 <= xi < w,
                    0 <= yi < h,
            ;
            assert((y as usize) as int == yi && (x as usize) as int == xi);
            let index = (y as usize) * width + (x as usize);
            buffer[index] = color;
            assert forall|i: int| 0 <= i < start.len() implies buffer@[i] == if painted(
                w,
                h,
                a,
                b,
                k + 1,
                i,
            ) {
                color
            } else {
                start[i]
            } by {
                lemma_paint_step(w, h, a, b, k, i);
                if 0 <= i < w * h {
                    lemma_cell(w, h, xi, yi, i);
                }
            }
        } else {
            assert forall|i: int| 0 <= i < start.len() implies buffer@[i] == if painted(
                w,
                h,
                a,
                b,
                k + 1,
                i,
            ) {
                color
            } else {
                start[i]
            } by {
                lemma_paint_step(w, h, a, b, k, i);
                if 0 <= i < w * h {
                    lemma_cell(w, h, x as int, y as int, i);
                }
            }
        }

        if x == x1 && y == y1 {
            assert forall|i: int| 0 <= i < start.len() implies buffer@[i] == if line_covers(
                w,
                h,
                a,
                b,
                i,
            ) {
                color
            } else {
                start[i]
            } by {
                lemma_painted_complete(w, h, a, b, k, i);
            }
            break;
        }

        proof {
            lemma_walk_step(a, b, walk_state(a, b, k));
        }
        let e2 = 2 * err;
        if e2 >= dy {
            err = err + dy;
            x = x + sx;
        }
        if e2 <= dx {
            err = err + dx;
            y = y + sy;
        }
        proof {
            assert forall|j: nat| j < k + 1 implies walk_pos(a, b, j) != b by {
                if j < k {
                }
            }
            k = k + 1;
        }
    }
}

} // verus!
