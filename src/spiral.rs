//! Outward spiral over the chunks of a rectangle centred on the origin.

use vstd::prelude::*;

verus! {

/// The walk turns left at the corners of its square rings.
pub open spec fn turns(x: int, y: int) -> bool {
    x == y || (x < 0 && x == -y) || (x > 0 && x == 1 - y)
}

/// One step of the walk from position `(x, y)` with direction `(dx, dy)`:
/// turn if at a corner, then move.
pub open spec fn walk_step(st: (int, int, int, int)) -> (int, int, int, int) {
    let (x, y, dx, dy) = st;
    let (ndx, ndy) = if turns(x, y) {
        (-dy, dx)
    } else {
        (dx, dy)
    };
    (x + ndx, y + ndy, ndx, ndy)
}

/// Position and last direction of the walk before step `k`.
pub open spec fn walk(k: nat) -> (int, int, int, int)
    decreases k,
{
    if k == 0 {
        (0, 0, 0, -1)
    } else {
        walk_step(walk((k - 1) as nat))
    }
}

/// Half of a width, rounded toward zero.
pub open spec fn half(w: i32) -> int {
    if w >= 0 {
        w / 2
    } else {
        -((-w) / 2)
    }
}

/// `(x, y)` lies in the box `(-w/2, w/2] x (-h/2, h/2]`.
pub open spec fn in_box(x: int, y: int, w: i32, h: i32) -> bool {
    -half(w) < x <= half(w) && -half(h) < y <= half(h)
}

/// The number of steps taken for widths `w` and `h`: the larger squared.
pub open spec fn spiral_steps(w: i32, h: i32) -> nat {
    let n: int = if w >= h {
        w as int
    } else {
        h as int
    };
    (n * n) as nat
}

/// The points of the box met in the first `k` steps of the walk, in order.
pub open spec fn spiral_upto(k: nat, w: i32, h: i32) -> Seq<(i32, i32)>
    decreases k,
{
    if k == 0 {
        seq![]
    } else {
        let prev = spiral_upto((k - 1) as nat, w, h);
        let (x, y, _, _) = walk((k - 1) as nat);
        if in_box(x, y, w, h) {
            prev.push((x as i32, y as i32))
        } else {
            prev
        }
    }
}

proof fn lemma_walk_bounds(k: nat)
    ensures
        -(k as int) <= walk(k).0 <= k,
        -(k as int) <= walk(k).1 <= k,
        -1 <= walk(k).2 <= 1,
        -1 <= walk(k).3 <= 1,
    decreases k,
{
    if k > 0 {
        lemma_walk_bounds((k - 1) as nat);
    }
}

/// The points of the box `(-x_max/2, x_max/2] x (-y_max/2, y_max/2]`, in the
/// order of an outward spiral that starts at the origin.
pub fn generate_spiral(x_max: i32, y_max: i32) -> (points: Vec<(i32, i32)>)
    ensures
        points@ == spiral_upto(spiral_steps(x_max, y_max), x_max, y_max),
        points@.no_duplicates(),
        forall|p: (i32, i32)|
            points@.contains(p) <==> in_box(p.0 as int, p.1 as int, x_max, y_max),
{
    let mut x: i64 = 0;
    let mut y: i64 = 0;
    let mut dx: i64 = 0;
    let mut dy: i64 = -1;
    let mut points: Vec<(i32, i32)> = Vec::new();
    let side: i64 = if x_max >= y_max {
        x_max as i64
    } else {
        y_max as i64
    };
    assert(0 <= side * side <= 0x4000000000000000) by (nonlinear_arith)
        requires
            -0x80000000 <= side < 0x80000000,
    ;
    let limit: i64 = side * side;
    let hx: i64 = (x_max / 2) as i64;
    let hy: i64 = (y_max / 2) as i64;
    let mut i: i64 = 0;
    while i < limit
        invariant
            0 <= i <= limit,
            limit == spiral_steps(x_max, y_max),
            limit <= 0x4000000000000000,
            hx == half(x_max),
            hy == half(y_max),
            (x as int, y as int, dx as int, dy as int) == walk(i as nat),
            points@ == spiral_upto(i as nat, x_max, y_max),
        decreases limit - i,
    {
        proof {
            lemma_walk_bounds(i as nat);
        }
        if -hx < x && x <= hx && -hy < y && y <= hy {
            points.push((x as i32, y as i32));
        }
        if x == y || (x < 0 && x == -y) || (x > 0 && x == 1 - y) {
            let temp = dx;
            dx = -dy;
            dy = temp;
        }
        x = x + dx;
        y = y + dy;
        i = i + 1;
    }
    proof {
        lemma_spiral_covers_box(x_max, y_max);
    }
    points
}

/// The state of the walk `j` steps into ring `n`, that is before step
/// `n * n + j` (with `j <= 2 * n`). Ring `n` takes the walk from the square of
/// side `n` round to that of side `n + 1`.
spec fn ring_state(n: nat, j: nat) -> (int, int, int, int) {
    let m: int = (n / 2) as int;
    if n % 2 == 0 {
        if j == 0 {
            if n == 0 {
                (0, 0, 0, -1)
            } else {
                (-m, m, -1, 0)
            }
        } else if j <= 2 * m {
            (-m, m - j, 0, -1)
        } else {
            (j - 3 * m, -m, 1, 0)
        }
    } else {
        if j == 0 {
            (m + 1, -m, 1, 0)
        } else if j <= 2 * m + 1 {
            (m + 1, -m + j, 0, 1)
        } else {
            (3 * m + 2 - j, m + 1, -1, 0)
        }
    }
}

proof fn lemma_ring_step(n: nat, j: nat)
    requires
        j <= 2 * n,
    ensures
        j < 2 * n ==> walk_step(ring_state(n, j)) == ring_state(n, j + 1),
        j == 2 * n ==> walk_step(ring_state(n, j)) == ring_state(n + 1, 0),
{
    let m: int = (n / 2) as int;
    if n % 2 == 0 {
        assert(n == 2 * m);
        assert((n + 1) / 2 == m);
    } else {
        assert(n == 2 * m + 1);
        assert((n + 1) / 2 == m + 1);
    }
}

proof fn lemma_walk_ring(n: nat, j: nat)
    requires
        j <= 2 * n,
    ensures
        walk(n * n + j) == ring_state(n, j),
    decreases n, j,
{
    if j > 0 {
        lemma_walk_ring(n, (j - 1) as nat);
        lemma_ring_step(n, (j - 1) as nat);
        assert(n * n + (j - 1) as nat == (n * n + j - 1) as nat);
        assert(walk(n * n + j) == walk_step(walk((n * n + j - 1) as nat)));
    } else if n > 0 {
        let p = (n - 1) as nat;
        lemma_walk_ring(p, 2 * p);
        lemma_ring_step(p, 2 * p);
        assert(p * p + 2 * p + 1 == n * n) by (nonlinear_arith)
            requires
                p == n - 1,
        ;
        assert(walk(n * n + j) == walk_step(walk((p * p + 2 * p) as nat)));
    } else {
        assert(n == 0 && j == 0);
        assert(n * n + j == 0) by (nonlinear_arith)
            requires
                n == 0 && j == 0,
        ;
    }
}

/// The side of the smallest origin square `[side/2 - side + 1, side/2]` that
/// holds coordinate `v`.
spec fn need(v: int) -> int {
    if v > 0 {
        2 * v
    } else {
        1 - 2 * v
    }
}

/// The ring and the step in it at which the walk reaches `(x, y)`.
spec fn cell_index(x: int, y: int) -> (nat, nat) {
    let big = if need(x) >= need(y) {
        need(x)
    } else {
        need(y)
    };
    let n = big - 1;
    let m = n / 2;
    if n % 2 == 0 {
        if x == -m {
            (n as nat, (m - y) as nat)
        } else {
            (n as nat, (x + 3 * m) as nat)
        }
    } else {
        if x == m + 1 {
            (n as nat, (y + m) as nat)
        } else {
            (n as nat, (3 * m + 2 - x) as nat)
        }
    }
}

proof fn lemma_decode(n: nat, j: nat)
    requires
        j <= 2 * n,
    ensures
        cell_index(ring_state(n, j).0, ring_state(n, j).1) == (n, j),
        need(ring_state(n, j).0) <= n + 1,
        need(ring_state(n, j).1) <= n + 1,
{
    let m: int = (n / 2) as int;
    if n % 2 == 0 {
        assert(n == 2 * m);
        assert(((2 * m) as int) / 2 == m);
    } else {
        assert(n == 2 * m + 1);
        assert(((2 * m + 1) as int) / 2 == m);
    }
}

proof fn lemma_encode(x: int, y: int)
    ensures
        cell_index(x, y).1 <= 2 * cell_index(x, y).0,
        ring_state(cell_index(x, y).0, cell_index(x, y).1).0 == x,
        ring_state(cell_index(x, y).0, cell_index(x, y).1).1 == y,
        cell_index(x, y).0 + 1 == need(x) || cell_index(x, y).0 + 1 == need(y),
        need(x) <= cell_index(x, y).0 + 1,
        need(y) <= cell_index(x, y).0 + 1,
{
    let big = if need(x) >= need(y) {
        need(x)
    } else {
        need(y)
    };
    let n = big - 1;
    let m = n / 2;
    if n % 2 == 0 {
        assert(n == 2 * m);
    } else {
        assert(n == 2 * m + 1);
    }
}

proof fn lemma_need(v: int, side: int)
    requires
        side >= 0,
    ensures
        (side / 2 - side + 1 <= v <= side / 2) <==> need(v) <= side,
{
    let s = side / 2;
    if side % 2 == 0 {
        assert(side == 2 * s);
    } else {
        assert(side == 2 * s + 1);
    }
}

/// The ring of step `k` and the step in it.
spec fn ring_of(k: nat) -> (nat, nat)
    decreases k,
{
    if k == 0 {
        (0, 0)
    } else {
        let (n, j) = ring_of((k - 1) as nat);
        if j == 2 * n {
            (n + 1, 0)
        } else {
            (n, j + 1)
        }
    }
}

proof fn lemma_ring_of(k: nat)
    ensures
        ring_of(k).1 <= 2 * ring_of(k).0,
        k == ring_of(k).0 * ring_of(k).0 + ring_of(k).1,
    decreases k,
{
    if k > 0 {
        lemma_ring_of((k - 1) as nat);
        let (n, j) = ring_of((k - 1) as nat);
        assert((n + 1) * (n + 1) == n * n + 2 * n + 1) by (nonlinear_arith);
    } else {
        assert(0 * 0 == 0nat);
    }
}

/// The walk never comes back to a position it has been at.
proof fn lemma_walk_distinct(k1: nat, k2: nat)
    requires
        walk(k1).0 == walk(k2).0,
        walk(k1).1 == walk(k2).1,
    ensures
        k1 == k2,
{
    lemma_ring_of(k1);
    lemma_ring_of(k2);
    let (n1, j1) = ring_of(k1);
    let (n2, j2) = ring_of(k2);
    lemma_walk_ring(n1, j1);
    lemma_walk_ring(n2, j2);
    lemma_decode(n1, j1);
    lemma_decode(n2, j2);
}

/// Each point of the square of side `side` is met in the first `side * side` steps.
proof fn lemma_walk_reaches(x: int, y: int, side: int) -> (k: nat)
    requires
        need(x) <= side,
        need(y) <= side,
    ensures
        k < side * side,
        walk(k).0 == x,
        walk(k).1 == y,
{
    lemma_encode(x, y);
    let (n, j) = cell_index(x, y);
    lemma_walk_ring(n, j);
    assert(n * n + j < side * side) by (nonlinear_arith)
        requires
            n + 1 <= side,
            j <= 2 * n,
    ;
    n * n + j
}

/// What the first `k` steps give: the points of the box met so far, each once.
proof fn lemma_spiral_upto(k: nat, w: i32, h: i32)
    ensures
        spiral_upto(k, w, h).no_duplicates(),
        forall|p: (i32, i32)|
            spiral_upto(k, w, h).contains(p) ==> in_box(p.0 as int, p.1 as int, w, h),
        forall|i: nat|
            i < k && in_box(walk(i).0, walk(i).1, w, h) ==> spiral_upto(k, w, h).contains(
                (walk(i).0 as i32, walk(i).1 as i32),
            ),
        forall|p: (i32, i32)|
            spiral_upto(k, w, h).contains(p) ==> exists|i: nat|
                i < k && walk(i).0 == p.0 && walk(i).1 == p.1,
    decreases k,
{
    if k > 0 {
        let q = (k - 1) as nat;
        lemma_spiral_upto(q, w, h);
        let prev = spiral_upto(q, w, h);
        let (x, y, _, _) = walk(q);
        if in_box(x, y, w, h) {
            let cur = prev.push((x as i32, y as i32));
            assert(cur == spiral_upto(k, w, h));
            assert forall|p: (i32, i32)| cur.contains(p) implies prev.contains(p) || p == (
                x as i32,
                y as i32,
            ) by {
                let t = choose|t: int| 0 <= t < cur.len() && cur[t] == p;
                if t < prev.len() {
                    assert(prev[t] == p);
                }
            }
            assert(!prev.contains((x as i32, y as i32))) by {
                if prev.contains((x as i32, y as i32)) {
                    let i = choose|i: nat| i < q && walk(i).0 == x && walk(i).1 == y;
                    lemma_walk_distinct(i, q);
                }
            }
            assert(cur.no_duplicates()) by {
                assert forall|a: int, b: int|
                    0 <= a < cur.len() && 0 <= b < cur.len() && a != b implies cur[a]
                    != cur[b] by {
                    if a == prev.len() {
                        assert(prev[b] == cur[b]);
                    } else if b == prev.len() {
                        assert(prev[a] == cur[a]);
                    } else {
                        assert(prev[a] == cur[a] && prev[b] == cur[b]);
                    }
                }
            }
            assert forall|i: nat|
                i < k && in_box(walk(i).0, walk(i).1, w, h) implies cur.contains(
                (walk(i).0 as i32, walk(i).1 as i32),
            ) by {
                if i < q {
                    let pt = (walk(i).0 as i32, walk(i).1 as i32);
                    let t = choose|t: int| 0 <= t < prev.len() && prev[t] == pt;
                    assert(cur[t] == pt);
                } else {
                    assert(cur[prev.len() as int] == (x as i32, y as i32));
                }
            }
            assert forall|p: (i32, i32)| cur.contains(p) implies exists|i: nat|
                i < k && walk(i).0 == p.0 && walk(i).1 == p.1 by {
                if !prev.contains(p) {
                    assert(walk(q).0 == p.0 && walk(q).1 == p.1);
                }
            }
        } else {
            assert(prev == spiral_upto(k, w, h));
        }
    }
}

/// The spiral holds every point of the box `(-w/2, w/2] x (-h/2, h/2]`,
/// nothing else, and no point twice.
pub proof fn lemma_spiral_covers_box(w: i32, h: i32)
    ensures
        spiral_upto(spiral_steps(w, h), w, h).no_duplicates(),
        forall|p: (i32, i32)|
            spiral_upto(spiral_steps(w, h), w, h).contains(p) <==> in_box(
                p.0 as int,
                p.1 as int,
                w,
                h,
            ),
{
    let k = spiral_steps(w, h);
    lemma_spiral_upto(k, w, h);
    let side: int = if w >= h {
        w as int
    } else {
        h as int
    };
    assert forall|p: (i32, i32)| in_box(p.0 as int, p.1 as int, w, h) implies spiral_upto(
        k,
        w,
        h,
    ).contains(p) by {
        assert(w >= 1 && h >= 1);
        lemma_need(p.0 as int, side);
        lemma_need(p.1 as int, side);
        let i = lemma_walk_reaches(p.0 as int, p.1 as int, side);
        assert((walk(i).0 as i32, walk(i).1 as i32) == p);
    }
}

} // verus!
