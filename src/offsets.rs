//! The neighbourhood of a chunk: offsets within a radius, measured from the
//! four corners that a position inside the chunk can be nearest to.

use vstd::prelude::*;

verus! {

/// `(px, pz)` lies in the disk of radius `r` around `(cx, cz)`, inside the
/// square `[cx - r, cx + r] x [cz - r, cz + r]`.
pub open spec fn in_disk(px: int, pz: int, cx: int, cz: int, r: int) -> bool {
    &&& cx - r <= px <= cx + r
    &&& cz - r <= pz <= cz + r
    &&& (px - cx) * (px - cx) + (pz - cz) * (pz - cz) < r * r
}

/// `(px, pz)` is within radius `r` of one of the reference centers
/// `(0, 0)`, `(0, -1)`, `(-1, 0)` and `(-1, -1)`.
pub open spec fn in_despawn_range(px: int, pz: int, r: int) -> bool {
    in_disk(px, pz, 0, 0, r) || in_disk(px, pz, 0, -1, r) || in_disk(px, pz, -1, 0, r) || in_disk(
        px,
        pz,
        -1,
        -1,
        r,
    )
}

/// Whether `p` is among the points of `v`.
fn contains_point(v: &Vec<(i32, i32)>, p: (i32, i32)) -> (r: bool)
    ensures
        r == v@.contains(p),
{
    let mut i: usize = 0;
    while i < v.len()
        invariant
            0 <= i <= v.len(),
            forall|j: int| 0 <= j < i ==> v@[j] != p,
        decreases v.len() - i,
    {
        if v[i].0 == p.0 && v[i].1 == p.1 {
            return true;
        }
        i = i + 1;
    }
    false
}

/// Adds to `v` the points of the disk of radius `r` around `(cx, cz)` that it
/// does not hold yet.
fn add_disk(v: &mut Vec<(i32, i32)>, cx: i32, cz: i32, r: i32)
    requires
        old(v)@.no_duplicates(),
        -1 <= cx <= 0,
        -1 <= cz <= 0,
        -46340 <= r <= 46340,
    ensures
        final(v)@.no_duplicates(),
        forall|p: (i32, i32)|
            final(v)@.contains(p) <==> (old(v)@.contains(p) || in_disk(
                p.0 as int,
                p.1 as int,
                cx as int,
                cz as int,
                r as int,
            )),
{
    let ghost v0 = v@;
    if r <= 0 {
        assert forall|p: (i32, i32)|
            !in_disk(p.0 as int, p.1 as int, cx as int, cz as int, r as int) by {
            let a = p.0 - cx;
            let b = p.1 - cz;
            assert(a * a + b * b >= 0) by (nonlinear_arith);
        }
        return;
    }
    assert(r * r <= 46340 * 46340) by (nonlinear_arith)
        requires
            0 < r <= 46340,
    ;
    let rr: i64 = r as i64 * r as i64;
    let mut x: i64 = cx as i64 - r as i64;
    while x <= cx as i64 + r as i64
        invariant
            v@.no_duplicates(),
            -1 <= cx <= 0,
            -1 <= cz <= 0,
            -46340 <= r <= 46340,
            rr == r * r,
            0 < r,
            cx - r <= x <= cx + r + 1,
            forall|p: (i32, i32)|
                v@.contains(p) <==> (v0.contains(p) || (in_disk(
                    p.0 as int,
                    p.1 as int,
                    cx as int,
                    cz as int,
                    r as int,
                ) && p.0 < x)),
        decreases cx + r + 1 - x,
    {
        let mut z: i64 = cz as i64 - r as i64;
        while z <= cz as i64 + r as i64
            invariant
                v@.no_duplicates(),
                -1 <= cx <= 0,
                -1 <= cz <= 0,
                -46340 <= r <= 46340,
                rr == r * r,
                cx - r <= x <= cx + r,
                cz - r <= z <= cz + r + 1,
                forall|p: (i32, i32)|
                    v@.contains(p) <==> (v0.contains(p) || (in_disk(
                        p.0 as int,
                        p.1 as int,
                        cx as int,
                        cz as int,
                        r as int,
                    ) && (p.0 < x || (p.0 == x && p.1 < z)))),
            decreases cz + r + 1 - z,
        {
            let ex = x - cx as i64;
            let ez = z - cz as i64;
            assert(0 <= ex * ex <= 46341 * 46341 && 0 <= ez * ez <= 46341 * 46341)
                by (nonlinear_arith)
                requires
                    -46341 <= ex <= 46341,
                    -46341 <= ez <= 46341,
            ;
            let ghost before = v@;
            let ghost hit = in_disk(x as int, z as int, cx as int, cz as int, r as int);
            assert(hit <==> ex * ex + ez * ez < rr);
            if ex * ex + ez * ez < rr {
                let p = (x as i32, z as i32);
                if !contains_point(v, p) {
                    v.push(p);
                    assert forall|q: (i32, i32)| v@.contains(q) <==> (before.contains(q) || q == p) by {
                        if before.contains(q) {
                            let k = choose|k: int| 0 <= k < before.len() && before[k] == q;
                            assert(v@[k] == q);
                        }
                        if q == p {
                            assert(v@[before.len() as int] == q);
                        }
                        if v@.contains(q) {
                            let k = choose|k: int| 0 <= k < v@.len() && v@[k] == q;
                            if k < before.len() {
                                assert(before[k] == q);
                            }
                        }
                    }
                    assert(v@.no_duplicates()) by {
                        assert forall|i: int, j: int|
                            0 <= i < v@.len() && 0 <= j < v@.len() && i != j implies v@[i]
                            != v@[j] by {
                            if i == before.len() {
                                assert(before[j] == v@[j]);
                            } else if j == before.len() {
                                assert(before[i] == v@[i]);
                            } else {
                                assert(before[i] == v@[i] && before[j] == v@[j]);
                            }
                        }
                    }
                }
            }
            assert forall|q: (i32, i32)|
                v@.contains(q) <==> (v0.contains(q) || (in_disk(
                    q.0 as int,
                    q.1 as int,
                    cx as int,
                    cz as int,
                    r as int,
                ) && (q.0 < x || (q.0 == x && q.1 < z + 1)))) by {
                if q.0 == x && q.1 == z {
                    assert(q == (x as i32, z as i32));
                }
            }
            z = z + 1;
        }
        x = x + 1;
    }
}

/// The offsets within `radius` of any of the four reference centers, each once.
pub fn generate_in_despawn_range_offsets(radius: i32) -> (offsets: Vec<(i32, i32)>)
    requires
        -46340 <= radius <= 46340,
    ensures
        offsets@.no_duplicates(),
        forall|p: (i32, i32)|
            offsets@.contains(p) <==> in_despawn_range(p.0 as int, p.1 as int, radius as int),
{
    let mut offsets: Vec<(i32, i32)> = Vec::new();
    add_disk(&mut offsets, 0, 0, radius);
    add_disk(&mut offsets, 0, -1, radius);
    add_disk(&mut offsets, -1, 0, radius);
    add_disk(&mut offsets, -1, -1, radius);
    offsets
}

/// The four reference centers are symmetric about `(-1/2, -1/2)`, and so is
/// the neighbourhood: `(x, z)` is in it exactly when `(-1 - x, -1 - z)` is.
pub proof fn lemma_offsets_centre_symmetric(x: int, z: int, r: int)
    ensures
        in_despawn_range(x, z, r) <==> in_despawn_range(-1 - x, -1 - z, r),
{
    assert forall|a: int, b: int| #[trigger] (a * b) == (-a) * (-b) by {
        assert(a * b == (-a) * (-b)) by (nonlinear_arith);
    }
    assert forall|cx: int, cz: int|
        #![trigger in_disk(x, z, cx, cz, r)]
        in_disk(x, z, cx, cz, r) <==> in_disk(-1 - x, -1 - z, -1 - cx, -1 - cz, r) by {
        assert((x - cx) * (x - cx) == (-1 - x - (-1 - cx)) * (-1 - x - (-1 - cx)));
        assert((z - cz) * (z - cz) == (-1 - z - (-1 - cz)) * (-1 - z - (-1 - cz)));
    }
    assert(in_disk(x, z, 0, 0, r) == in_disk(-1 - x, -1 - z, -1, -1, r));
    assert(in_disk(x, z, 0, -1, r) == in_disk(-1 - x, -1 - z, -1, 0, r));
    assert(in_disk(x, z, -1, 0, r) == in_disk(-1 - x, -1 - z, 0, -1, r));
    assert(in_disk(x, z, -1, -1, r) == in_disk(-1 - x, -1 - z, 0, 0, r));
}

/// The reference centers are not symmetric under negation, and neither is the
/// neighbourhood: for a radius of at least one, `(-r, 0)` is in it and
/// `(r, 0)` is not.
pub proof fn lemma_offsets_not_negation_symmetric(r: int)
    requires
        r >= 1,
    ensures
        in_despawn_range(-r, 0, r),
        !in_despawn_range(r, 0, r),
{
    assert((-r + 1) * (-r + 1) < r * r) by (nonlinear_arith)
        requires
            r >= 1,
    ;
    assert(r * r + 1 >= r * r);
}

} // verus!
