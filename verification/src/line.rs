use vstd::prelude::*;

verus! {

pub open spec fn abs_int(v: int) -> int {
    if v < 0 {
        -v
    } else {
        v
    }
}

pub open spec fn max_int(a: int, b: int) -> int {
    if a < b {
        b
    } else {
        a
    }
}

/// The points Bresenham's walk visits from (`x`, `y`) towards (`x2`, `y2`):
/// `dx` = |x2 - x1|, `dy` = -|y2 - y1|, `sx`/`sy` the step directions and
/// `err` the running error term; `fuel` bounds the number of steps.
pub open spec fn line_walk(
    x: int,
    y: int,
    x2: int,
    y2: int,
    dx: int,
    dy: int,
    sx: int,
    sy: int,
    err: int,
    fuel: nat,
) -> Seq<(int, int)>
    decreases fuel,
{
    if (x == x2 && y == y2) || fuel == 0 {
        seq![(x, y)]
    } else {
        let e2 = 2 * err;
        let nx = if e2 >= dy {
            x + sx
        } else {
            x
        };
        let err1 = if e2 >= dy {
            err + dy
        } else {
            err
        };
        let ny = if e2 <= dx {
            y + sy
        } else {
            y
        };
        let err2 = if e2 <= dx {
            err1 + dx
        } else {
            err1
        };
        seq![(x, y)] + line_walk(nx, ny, x2, y2, dx, dy, sx, sy, err2, (fuel - 1) as nat)
    }
}

pub open spec fn step_x(x1: int, x2: int) -> int {
    if x1 < x2 {
        1
    } else {
        -1
    }
}

/// The pixels of the segment from (`x1`, `y1`) to (`x2`, `y2`), in the order
/// Bresenham's algorithm draws them.
pub open spec fn line_points(x1: int, y1: int, x2: int, y2: int) -> Seq<(int, int)> {
    let dx = abs_int(x2 - x1);
    let dy = -abs_int(y2 - y1);
    line_walk(x1, y1, x2, y2, dx, dy, step_x(x1, x2), step_x(y1, y2), dx + dy, (dx - dy) as nat)
}

/// State of the walk after `k` steps, `i` of them along x and `j` along y.
pub open spec fn walk_state(
    x1: int,
    y1: int,
    x2: int,
    y2: int,
    i: int,
    j: int,
    k: int,
    x: int,
    y: int,
    err: int,
) -> bool {
    let dx = abs_int(x2 - x1);
    let big_dy = abs_int(y2 - y1);
    &&& 0 <= i <= dx
    &&& 0 <= j <= big_dy
    &&& 0 <= k <= i + j
    &&& x == x1 + step_x(x1, x2) * i
    &&& y == y1 + step_x(y1, y2) * j
    &&& err == dx * (j + 1) - big_dy * (i + 1)
    &&& -max_int(dx, big_dy) <= dx * j - big_dy * i <= max_int(dx, big_dy)
}

/// One step of the walk keeps its state, moves at least one coordinate, and
/// keeps the error term within twice the longer side.
pub proof fn lemma_walk_step(
    x1: int,
    y1: int,
    x2: int,
    y2: int,
    i: int,
    j: int,
    k: int,
    x: int,
    y: int,
    err: int,
)
    requires
        walk_state(x1, y1, x2, y2, i, j, k, x, y, err),
        !(x == x2 && y == y2),
    ensures
        ({
            let dx = abs_int(x2 - x1);
            let dy = -abs_int(y2 - y1);
            let e2 = 2 * err;
            let i2 = if e2 >= dy {
                i + 1
            } else {
                i
            };
            let j2 = if e2 <= dx {
                j + 1
            } else {
                j
            };
            let nx = if e2 >= dy {
                x + step_x(x1, x2)
            } else {
                x
            };
            let err1 = if e2 >= dy {
                err + dy
            } else {
                err
            };
            let ny = if e2 <= dx {
                y + step_x(y1, y2)
            } else {
                y
            };
            let err2 = if e2 <= dx {
                err1 + dx
            } else {
                err1
            };
            &&& walk_state(x1, y1, x2, y2, i2, j2, k + 1, nx, ny, err2)
            &&& i + j < i2 + j2
        }),
        i < abs_int(x2 - x1) || j < abs_int(y2 - y1),
        -2 * max_int(abs_int(x2 - x1), abs_int(y2 - y1)) <= err <= 2 * max_int(
            abs_int(x2 - x1),
            abs_int(y2 - y1),
        ),
{
    let dx = abs_int(x2 - x1);
    let bdy = abs_int(y2 - y1);
    let dy = -bdy;
    let sx = step_x(x1, x2);
    let sy = step_x(y1, y2);
    let m = max_int(dx, bdy);
    let d = dx * j - bdy * i;
    assert(x2 == x1 + sx * dx) by (nonlinear_arith)
        requires
            dx == abs_int(x2 - x1),
            sx == step_x(x1, x2),
    ;
    assert(y2 == y1 + sy * bdy) by (nonlinear_arith)
        requires
            bdy == abs_int(y2 - y1),
            sy == step_x(y1, y2),
    ;
    assert(i < dx || j < bdy) by {
        if i == dx && j == bdy {
            assert(x == x2);
            assert(y == y2);
        }
    }
    assert(err == d + dx - bdy) by (nonlinear_arith)
        requires
            err == dx * (j + 1) - bdy * (i + 1),
            d == dx * j - bdy * i,
    ;
    let e2 = 2 * err;
    if e2 >= dy && i == dx {
        assert(j < bdy);
        assert(dx * (j + 1) <= dx * bdy) by (nonlinear_arith)
            requires
                j + 1 <= bdy,
                dx >= 0,
        ;
        assert(bdy * (i + 1) == bdy * dx + bdy) by (nonlinear_arith)
            requires
                i == dx,
        ;
        assert(false);
    }
    if e2 <= dx && j == bdy {
        assert(i < dx);
        assert(bdy * (i + 1) <= bdy * dx) by (nonlinear_arith)
            requires
                i + 1 <= dx,
                bdy >= 0,
        ;
        assert(dx * (j + 1) == dx * bdy + dx) by (nonlinear_arith)
            requires
                j == bdy,
        ;
        assert(false);
    }
    let i2 = if e2 >= dy {
        i + 1
    } else {
        i
    };
    let j2 = if e2 <= dx {
        j + 1
    } else {
        j
    };
    assert(dx * (j2 + 1) - bdy * (i2 + 1) == err + (if e2 >= dy {
        dy
    } else {
        0
    }) + (if e2 <= dx {
        dx
    } else {
        0
    })) by (nonlinear_arith)
        requires
            err == dx * (j + 1) - bdy * (i + 1),
            i2 == i || i2 == i + 1,
            j2 == j || j2 == j + 1,
            (i2 == i + 1) == (e2 >= dy),
            (j2 == j + 1) == (e2 <= dx),
            dy == -bdy,
    ;
    assert(dx * j2 - bdy * i2 == d + (if e2 >= dy {
        dy
    } else {
        0
    }) + (if e2 <= dx {
        dx
    } else {
        0
    })) by (nonlinear_arith)
        requires
            d == dx * j - bdy * i,
            i2 == i || i2 == i + 1,
            j2 == j || j2 == j + 1,
            (i2 == i + 1) == (e2 >= dy),
            (j2 == j + 1) == (e2 <= dx),
            dy == -bdy,
    ;
    assert(x + (if e2 >= dy {
        sx
    } else {
        0
    }) == x1 + sx * i2) by (nonlinear_arith)
        requires
            x == x1 + sx * i,
            i2 == i || i2 == i + 1,
            (i2 == i + 1) == (e2 >= dy),
    ;
    assert(y + (if e2 <= dx {
        sy
    } else {
        0
    }) == y1 + sy * j2) by (nonlinear_arith)
        requires
            y == y1 + sy * j,
            j2 == j || j2 == j + 1,
            (j2 == j + 1) == (e2 <= dx),
    ;
}

/// The walk ends on the far endpoint and never leaves the segment's bounding box.
pub proof fn lemma_walk_reaches_end(
    x1: int,
    y1: int,
    x2: int,
    y2: int,
    i: int,
    j: int,
    k: int,
    x: int,
    y: int,
    err: int,
    fuel: nat,
)
    requires
        walk_state(x1, y1, x2, y2, i, j, k, x, y, err),
        fuel == abs_int(x2 - x1) + abs_int(y2 - y1) - k,
    ensures
        line_walk(
            x,
            y,
            x2,
            y2,
            abs_int(x2 - x1),
            -abs_int(y2 - y1),
            step_x(x1, x2),
            step_x(y1, y2),
            err,
            fuel,
        ).last() == (x2, y2),
        line_walk(
            x,
            y,
            x2,
            y2,
            abs_int(x2 - x1),
            -abs_int(y2 - y1),
            step_x(x1, x2),
            step_x(y1, y2),
            err,
            fuel,
        )[0] == (x, y),
        forall|n: int|
            0 <= n < line_walk(
                x,
                y,
                x2,
                y2,
                abs_int(x2 - x1),
                -abs_int(y2 - y1),
                step_x(x1, x2),
                step_x(y1, y2),
                err,
                fuel,
            ).len() ==> in_box(
                x1,
                y1,
                x2,
                y2,
                #[trigger] line_walk(
                    x,
                    y,
                    x2,
                    y2,
                    abs_int(x2 - x1),
                    -abs_int(y2 - y1),
                    step_x(x1, x2),
                    step_x(y1, y2),
                    err,
                    fuel,
                )[n],
            ),
    decreases fuel,
{
    let dx = abs_int(x2 - x1);
    let dy = -abs_int(y2 - y1);
    let sx = step_x(x1, x2);
    let sy = step_x(y1, y2);
    let w = line_walk(x, y, x2, y2, dx, dy, sx, sy, err, fuel);
    lemma_state_in_box(x1, y1, x2, y2, i, j, k, x, y, err);
    if x == x2 && y == y2 {
    } else {
        lemma_walk_step(x1, y1, x2, y2, i, j, k, x, y, err);
        assert(fuel > 0);
        let e2 = 2 * err;
        let nx = if e2 >= dy {
            x + sx
        } else {
            x
        };
        let err1 = if e2 >= dy {
            err + dy
        } else {
            err
        };
        let ny = if e2 <= dx {
            y + sy
        } else {
            y
        };
        let err2 = if e2 <= dx {
            err1 + dx
        } else {
            err1
        };
        let i2 = if e2 >= dy {
            i + 1
        } else {
            i
        };
        let j2 = if e2 <= dx {
            j + 1
        } else {
            j
        };
        lemma_walk_reaches_end(x1, y1, x2, y2, i2, j2, k + 1, nx, ny, err2, (fuel - 1) as nat);
        let rest = line_walk(nx, ny, x2, y2, dx, dy, sx, sy, err2, (fuel - 1) as nat);
        assert(w == seq![(x, y)] + rest);
        assert forall|n: int| 0 <= n < w.len() implies in_box(x1, y1, x2, y2, #[trigger] w[n]) by {
            if n > 0 {
                assert(w[n] == rest[n - 1]);
            }
        }
    }
}

/// Whether `p` lies in the bounding box of the segment's endpoints.
pub open spec fn in_box(x1: int, y1: int, x2: int, y2: int, p: (int, int)) -> bool {
    &&& (x1 <= p.0 <= x2 || x2 <= p.0 <= x1)
    &&& (y1 <= p.1 <= y2 || y2 <= p.1 <= y1)
}

pub proof fn lemma_state_in_box(
    x1: int,
    y1: int,
    x2: int,
    y2: int,
    i: int,
    j: int,
    k: int,
    x: int,
    y: int,
    err: int,
)
    requires
        walk_state(x1, y1, x2, y2, i, j, k, x, y, err),
    ensures
        in_box(x1, y1, x2, y2, (x, y)),
{
}

/// A drawn segment starts at its first endpoint, ends at its second, and
/// stays inside the box the two endpoints span.
pub proof fn lemma_line_endpoints(x1: int, y1: int, x2: int, y2: int)
    ensures
        line_points(x1, y1, x2, y2)[0] == (x1, y1),
        line_points(x1, y1, x2, y2).last() == (x2, y2),
        forall|n: int|
            0 <= n < line_points(x1, y1, x2, y2).len() ==> in_box(
                x1,
                y1,
                x2,
                y2,
                #[trigger] line_points(x1, y1, x2, y2)[n],
            ),
{
    let dx = abs_int(x2 - x1);
    let bdy = abs_int(y2 - y1);
    assert(dx * (0 + 1) - bdy * (0 + 1) == dx - bdy) by (nonlinear_arith);
    assert(dx * 0 - bdy * 0 == 0) by (nonlinear_arith);
    lemma_walk_reaches_end(x1, y1, x2, y2, 0, 0, 0, x1, y1, dx - bdy, (dx + bdy) as nat);
}


/// Two pixels are neighbours: distinct, and at most one apart along each axis.
pub open spec fn adjacent(a: (int, int), b: (int, int)) -> bool {
    &&& a != b
    &&& abs_int(a.0 - b.0) <= 1
    &&& abs_int(a.1 - b.1) <= 1
}

/// The walk's error against the ideal segment stays within half a pixel of
/// the longer side, so the walk steps along that side at every step.
pub open spec fn tight(dx: int, big_dy: int, i: int, j: int) -> bool {
    let e = dx * j - big_dy * i;
    if dx == 0 && big_dy == 0 {
        true
    } else if dx >= big_dy {
        -dx < 2 * e <= dx
    } else {
        -big_dy <= 2 * e < big_dy
    }
}

/// From a tight state the walk has one point per remaining step along the
/// longer side (plus the one it stands on), and consecutive points are neighbours.
#[verifier::rlimit(40)]
proof fn lemma_walk_shape(
    x1: int,
    y1: int,
    x2: int,
    y2: int,
    i: int,
    j: int,
    k: int,
    x: int,
    y: int,
    err: int,
    fuel: nat,
)
    requires
        walk_state(x1, y1, x2, y2, i, j, k, x, y, err),
        tight(abs_int(x2 - x1), abs_int(y2 - y1), i, j),
        fuel >= max_int(abs_int(x2 - x1), abs_int(y2 - y1)) - (if abs_int(x2 - x1) >= abs_int(
            y2 - y1,
        ) {
            i
        } else {
            j
        }),
    ensures
        ({
            let w = line_walk(
                x,
                y,
                x2,
                y2,
                abs_int(x2 - x1),
                -abs_int(y2 - y1),
                step_x(x1, x2),
                step_x(y1, y2),
                err,
                fuel,
            );
            &&& w.len() == max_int(abs_int(x2 - x1), abs_int(y2 - y1)) - (if abs_int(x2 - x1)
                >= abs_int(y2 - y1) {
                i
            } else {
                j
            }) + 1
            &&& forall|n: int| 0 <= n < w.len() - 1 ==> adjacent(#[trigger] w[n], w[n + 1])
            &&& forall|n: int|
                0 <= n < w.len() ==> tight(
                    abs_int(x2 - x1),
                    abs_int(y2 - y1),
                    abs_int((#[trigger] w[n]).0 - x1),
                    abs_int(w[n].1 - y1),
                ) && if abs_int(x2 - x1) >= abs_int(y2 - y1) {
                    abs_int(w[n].0 - x1) == i + n
                } else {
                    abs_int(w[n].1 - y1) == j + n
                }
        }),
    decreases fuel,
{
    let dx = abs_int(x2 - x1);
    let bdy = abs_int(y2 - y1);
    let dy = -bdy;
    let sx = step_x(x1, x2);
    let sy = step_x(y1, y2);
    let m = max_int(dx, bdy);
    let p = if dx >= bdy {
        i
    } else {
        j
    };
    let e = dx * j - bdy * i;
    let w = line_walk(x, y, x2, y2, dx, dy, sx, sy, err, fuel);
    assert(x2 == x1 + sx * dx) by (nonlinear_arith)
        requires
            dx == abs_int(x2 - x1),
            sx == step_x(x1, x2),
    ;
    assert(y2 == y1 + sy * bdy) by (nonlinear_arith)
        requires
            bdy == abs_int(y2 - y1),
            sy == step_x(y1, y2),
    ;
    assert(err == e + dx - bdy) by (nonlinear_arith)
        requires
            err == dx * (j + 1) - bdy * (i + 1),
            e == dx * j - bdy * i,
    ;
    assert(abs_int(x - x1) == i) by (nonlinear_arith)
        requires
            x == x1 + sx * i,
            sx == 1 || sx == -1,
            i >= 0,
    ;
    assert(abs_int(y - y1) == j) by (nonlinear_arith)
        requires
            y == y1 + sy * j,
            sy == 1 || sy == -1,
            j >= 0,
    ;
    // On the last column (row) of the longer side the shorter one is done too.
    if dx >= bdy && dx > 0 && i == dx {
        assert(j == bdy) by (nonlinear_arith)
            requires
                e == dx * j - bdy * i,
                i == dx,
                dx > 0,
                -dx < 2 * e <= dx,
                0 <= j <= bdy,
        ;
    }
    if dx < bdy && j == bdy {
        assert(i == dx) by (nonlinear_arith)
            requires
                e == dx * j - bdy * i,
                j == bdy,
                bdy > 0,
                -bdy <= 2 * e < bdy,
                0 <= i <= dx,
        ;
    }
    if x == x2 && y == y2 {
        if dx >= bdy {
            assert(sx * i == sx * dx);
            assert(i == dx) by (nonlinear_arith)
                requires
                    sx * i == sx * dx,
                    sx == 1 || sx == -1,
            ;
        } else {
            assert(sy * j == sy * bdy);
            assert(j == bdy) by (nonlinear_arith)
                requires
                    sy * j == sy * bdy,
                    sy == 1 || sy == -1,
            ;
        }
        assert(w =~= seq![(x, y)]);
        assert(w[0] == (x, y));
    } else {
        assert(p < m);
        assert(fuel > 0);
        lemma_walk_step(x1, y1, x2, y2, i, j, k, x, y, err);
        let e2 = 2 * err;
        let xs = e2 >= dy;
        let ys = e2 <= dx;
        let nx = if xs {
            x + sx
        } else {
            x
        };
        let err1 = if xs {
            err + dy
        } else {
            err
        };
        let ny = if ys {
            y + sy
        } else {
            y
        };
        let err2 = if ys {
            err1 + dx
        } else {
            err1
        };
        let i2 = if xs {
            i + 1
        } else {
            i
        };
        let j2 = if ys {
            j + 1
        } else {
            j
        };
        let e_next = dx * j2 - bdy * i2;
        assert(e_next == e - (if xs {
            bdy
        } else {
            0
        }) + (if ys {
            dx
        } else {
            0
        })) by (nonlinear_arith)
            requires
                e == dx * j - bdy * i,
                e_next == dx * j2 - bdy * i2,
                i2 == (if xs {
                    i + 1
                } else {
                    i
                }),
                j2 == (if ys {
                    j + 1
                } else {
                    j
                }),
        ;
        if dx >= bdy {
            assert(xs);
        } else {
            assert(ys);
        }
        assert(tight(dx, bdy, i2, j2));
        lemma_walk_shape(x1, y1, x2, y2, i2, j2, k + 1, nx, ny, err2, (fuel - 1) as nat);
        let rest = line_walk(nx, ny, x2, y2, dx, dy, sx, sy, err2, (fuel - 1) as nat);
        assert(w == seq![(x, y)] + rest);
        assert(rest[0] == (nx, ny));
        assert forall|n: int| 0 <= n < w.len() - 1 implies adjacent(#[trigger] w[n], w[n + 1]) by {
            if n > 0 {
                assert(w[n] == rest[n - 1]);
                assert(w[n + 1] == rest[n]);
            }
        }
        assert forall|n: int|
            0 <= n < w.len() implies tight(dx, bdy, abs_int((#[trigger] w[n]).0 - x1), abs_int(
            w[n].1 - y1,
        )) && if dx >= bdy {
            abs_int(w[n].0 - x1) == i + n
        } else {
            abs_int(w[n].1 - y1) == j + n
        } by {
            if n > 0 {
                assert(w[n] == rest[n - 1]);
            } else {
                assert(w[0] == (x, y));
            }
        }
    }
}

/// A drawn segment has one pixel per step along its longer side, plus one,
/// and each pixel is a neighbour of the next. Its `n`-th pixel lies `n` steps
/// from the start along the longer side, and on the shorter side it is the
/// pixel nearest the ideal segment (`tight`: within half a pixel, a tie going
/// to the pixel nearer the start). Together with the endpoints and the
/// bounding box this fixes every pixel of the segment.
pub proof fn lemma_line_shape(x1: int, y1: int, x2: int, y2: int)
    ensures
        line_points(x1, y1, x2, y2).len() == max_int(abs_int(x2 - x1), abs_int(y2 - y1)) + 1,
        forall|n: int|
            0 <= n < line_points(x1, y1, x2, y2).len() - 1 ==> adjacent(
                #[trigger] line_points(x1, y1, x2, y2)[n],
                line_points(x1, y1, x2, y2)[n + 1],
            ),
        forall|n: int|
            0 <= n < line_points(x1, y1, x2, y2).len() ==> tight(
                abs_int(x2 - x1),
                abs_int(y2 - y1),
                abs_int((#[trigger] line_points(x1, y1, x2, y2)[n]).0 - x1),
                abs_int(line_points(x1, y1, x2, y2)[n].1 - y1),
            ) && if abs_int(x2 - x1) >= abs_int(y2 - y1) {
                abs_int(line_points(x1, y1, x2, y2)[n].0 - x1) == n
            } else {
                abs_int(line_points(x1, y1, x2, y2)[n].1 - y1) == n
            },
{
    let dx = abs_int(x2 - x1);
    let bdy = abs_int(y2 - y1);
    assert(dx * (0 + 1) - bdy * (0 + 1) == dx - bdy) by (nonlinear_arith);
    assert(dx * 0 - bdy * 0 == 0) by (nonlinear_arith);
    assert(tight(dx, bdy, 0, 0)) by {
        assert(dx * 0 - bdy * 0 == 0) by (nonlinear_arith);
    }
    lemma_walk_shape(x1, y1, x2, y2, 0, 0, 0, x1, y1, dx - bdy, (dx + bdy) as nat);
}
} // verus!
