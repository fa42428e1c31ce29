use vstd::prelude::*;
use crate::canvas::{FenrirImage, ImageModel, image_of};
use crate::error::FenrirError;
use crate::raster::crop_model;
use crate::sorting::{leq_u32, sorted_tail};

verus! {

/// The strips [a, b) that a split walks out of [start, limit): each cut point
/// p with start < p <= limit closes a strip at p and opens the next one
/// there, other points are skipped, and what is left up to `limit` forms a
/// last strip.
pub open spec fn split_spans(points: Seq<u32>, limit: nat, start: nat) -> Seq<(nat, nat)>
    decreases points.len(),
{
    if points.len() == 0 {
        if start < limit {
            seq![(start, limit)]
        } else {
            Seq::empty()
        }
    } else {
        let p = points[0] as nat;
        if p <= start || p > limit {
            split_spans(points.drop_first(), limit, start)
        } else {
            seq![(start, p)] + split_spans(points.drop_first(), limit, p)
        }
    }
}

/// The piece of the image covering strip `span`: columns for axis 0, rows for axis 1.
pub open spec fn split_piece(m: ImageModel, axis: u32, span: (nat, nat)) -> ImageModel {
    if axis == 0 {
        image_of(crop_model(m.raster, span.0, 0, (span.1 - span.0) as nat, m.height))
    } else {
        image_of(crop_model(m.raster, 0, span.0, m.width, (span.1 - span.0) as nat))
    }
}

/// The pieces a split along `axis` at the (sorted) `points` produces; none
/// when the image has no extent across the axis.
pub open spec fn split_pieces(m: ImageModel, axis: u32, points: Seq<u32>) -> Seq<ImageModel> {
    let limit = if axis == 0 {
        m.width
    } else {
        m.height
    };
    let across = if axis == 0 {
        m.height
    } else {
        m.width
    };
    if across == 0 {
        Seq::empty()
    } else {
        split_spans(points, limit, 0).map_values(|s: (nat, nat)| split_piece(m, axis, s))
    }
}

/// Why a split request is refused, if it is.
pub open spec fn split_error(cuts: Seq<u32>) -> Option<FenrirError> {
    if cuts.len() < 2 {
        Some(FenrirError::SplitTooShort)
    } else if cuts[0] != 0 && cuts[0] != 1 {
        Some(FenrirError::SplitBadAxis)
    } else {
        None
    }
}

/// The strips of a split tile [start, limit): the first starts at `start`,
/// each ends where the next begins, the last ends at `limit`, none is
/// empty, and there is at least one exactly when `start < limit`.
pub proof fn lemma_split_spans_tile(points: Seq<u32>, limit: nat, start: nat)
    requires
        start <= limit,
    ensures
        ({
            let s = split_spans(points, limit, start);
            &&& (s.len() > 0) == (start < limit)
            &&& s.len() > 0 ==> s[0].0 == start && s.last().1 == limit
            &&& forall|i: int| 0 <= i < s.len() ==> #[trigger] s[i].0 < s[i].1
            &&& forall|i: int| 0 <= i < s.len() - 1 ==> #[trigger] s[i].1 == s[i + 1].0
        }),
    decreases points.len(),
{
    if points.len() > 0 {
        let p = points[0] as nat;
        if p <= start || p > limit {
            lemma_split_spans_tile(points.drop_first(), limit, start);
        } else {
            lemma_split_spans_tile(points.drop_first(), limit, p);
            let rest = split_spans(points.drop_first(), limit, p);
            let s = split_spans(points, limit, start);
            assert(s == seq![(start, p)] + rest);
            assert forall|i: int| 0 <= i < s.len() - 1 implies #[trigger] s[i].1 == s[i + 1].0 by {
                if i > 0 {
                    assert(s[i] == rest[i - 1]);
                    assert(s[i + 1] == rest[i]);
                }
            }
            assert forall|i: int| 0 <= i < s.len() implies #[trigger] s[i].0 < s[i].1 by {
                if i > 0 {
                    assert(s[i] == rest[i - 1]);
                }
            }
        }
    }
}

/// Points in ascending order.
pub open spec fn ascending(s: Seq<u32>) -> bool {
    forall|a: int, b: int| 0 <= a < b < s.len() ==> s[a] <= s[b]
}

/// Cut points all beyond `limit` leave a single strip.
proof fn lemma_spans_beyond(s: Seq<u32>, limit: nat, start: nat)
    requires
        forall|i: int| 0 <= i < s.len() ==> s[i] > limit,
    ensures
        split_spans(s, limit, start) == split_spans(Seq::<u32>::empty(), limit, start),
    decreases s.len(),
{
    if s.len() > 0 {
        lemma_spans_beyond(s.drop_first(), limit, start);
    }
}

/// Two ascending lists of cut points with the same values above `start` walk
/// out the same strips.
proof fn lemma_spans_same_values(s: Seq<u32>, t: Seq<u32>, limit: nat, start: nat)
    requires
        ascending(s),
        ascending(t),
        forall|x: u32| x > start ==> (s.contains(x) <==> t.contains(x)),
    ensures
        split_spans(s, limit, start) == split_spans(t, limit, start),
    decreases s.len() + t.len(),
{
    if s.len() > 0 && s[0] <= start {
        let s1 = s.drop_first();
        assert forall|x: u32| x > start implies (s1.contains(x) <==> t.contains(x)) by {
            if s.contains(x) {
                let n = choose|n: int| 0 <= n < s.len() && s[n] == x;
                assert(n > 0);
                assert(s1[n - 1] == x);
            }
            if s1.contains(x) {
                let n = choose|n: int| 0 <= n < s1.len() && s1[n] == x;
                assert(s[n + 1] == x);
            }
        }
        lemma_spans_same_values(s1, t, limit, start);
    } else if t.len() > 0 && t[0] <= start {
        let t1 = t.drop_first();
        assert forall|x: u32| x > start implies (s.contains(x) <==> t1.contains(x)) by {
            if t.contains(x) {
                let n = choose|n: int| 0 <= n < t.len() && t[n] == x;
                assert(n > 0);
                assert(t1[n - 1] == x);
            }
            if t1.contains(x) {
                let n = choose|n: int| 0 <= n < t1.len() && t1[n] == x;
                assert(t[n + 1] == x);
            }
        }
        lemma_spans_same_values(s, t1, limit, start);
    } else if s.len() == 0 {
        if t.len() > 0 {
            assert(t.contains(t[0]));
        }
    } else if t.len() == 0 {
        assert(s.contains(s[0]));
    } else {
        let p = s[0];
        assert(s.contains(p));
        assert(t.contains(t[0]));
        assert(p == t[0]) by {
            let n = choose|n: int| 0 <= n < t.len() && t[n] == p;
            let q = t[0];
            let m = choose|m: int| 0 <= m < s.len() && s[m] == q;
            assert(t[0] <= t[n]);
            assert(s[0] <= s[m]);
        }
        if p > limit {
            lemma_spans_beyond(s, limit, start);
            lemma_spans_beyond(t, limit, start);
        } else {
            let s1 = s.drop_first();
            let t1 = t.drop_first();
            assert forall|x: u32| x > p implies (s1.contains(x) <==> t1.contains(x)) by {
                if s1.contains(x) {
                    let n = choose|n: int| 0 <= n < s1.len() && s1[n] == x;
                    assert(s[n + 1] == x);
                    assert(t.contains(x));
                    let m = choose|m: int| 0 <= m < t.len() && t[m] == x;
                    assert(m > 0);
                    assert(t1[m - 1] == x);
                }
                if t1.contains(x) {
                    let n = choose|n: int| 0 <= n < t1.len() && t1[n] == x;
                    assert(t[n + 1] == x);
                    assert(s.contains(x));
                    let m = choose|m: int| 0 <= m < s.len() && s[m] == x;
                    assert(m > 0);
                    assert(s1[m - 1] == x);
                }
            }
            lemma_spans_same_values(s1, t1, limit, p as nat);
        }
    }
}

/// The order and the repetitions of the cut positions do not matter: two
/// requests with the same axis and the same set of positions are refused
/// alike or give the same pieces.
pub proof fn lemma_split_ignores_order_and_repeats(m: ImageModel, c1: Seq<u32>, c2: Seq<u32>)
    requires
        c1.len() >= 1,
        c2.len() >= 1,
        c1[0] == c2[0],
        forall|x: u32|
            c1.subrange(1, c1.len() as int).contains(x) <==> c2.subrange(1, c2.len() as int).contains(
                x,
            ),
    ensures
        split_error(c1) == split_error(c2),
        split_pieces(m, c1[0], c1.subrange(1, c1.len() as int).sort_by(leq_u32())) == split_pieces(
            m,
            c2[0],
            c2.subrange(1, c2.len() as int).sort_by(leq_u32()),
        ),
{
    broadcast use vstd::seq_lib::group_to_multiset_ensures;

    let a = c1.subrange(1, c1.len() as int);
    let b = c2.subrange(1, c2.len() as int);
    crate::sorting::lemma_leq_u32_total();
    a.lemma_sort_by_ensures(leq_u32());
    b.lemma_sort_by_ensures(leq_u32());
    let sa = a.sort_by(leq_u32());
    let sb = b.sort_by(leq_u32());
    if a.len() > 0 {
        assert(a.contains(a[0]));
    }
    if b.len() > 0 {
        assert(b.contains(b[0]));
    }
    assert forall|x: u32| sa.contains(x) <==> a.contains(x) by {
        assert(a.to_multiset().count(x) == sa.to_multiset().count(x));
    }
    assert forall|x: u32| sb.contains(x) <==> b.contains(x) by {
        assert(b.to_multiset().count(x) == sb.to_multiset().count(x));
    }
    assert(ascending(sa)) by {
        assert forall|i: int, j: int| 0 <= i < j < sa.len() implies sa[i] <= sa[j] by {
            assert(leq_u32()(sa[i], sa[j]));
        }
    }
    assert(ascending(sb)) by {
        assert forall|i: int, j: int| 0 <= i < j < sb.len() implies sb[i] <= sb[j] by {
            assert(leq_u32()(sb[i], sb[j]));
        }
    }
    let limit = if c1[0] == 0 {
        m.width
    } else {
        m.height
    };
    lemma_spans_same_values(sa, sb, limit, 0);
}

/// A piece of a vertical split spans the whole height of the raster and the
/// columns [a, b) of it; a piece of a horizontal split spans its whole width
/// and the rows [a, b).
pub proof fn lemma_split_piece_shape(m: ImageModel, axis: u32, a: nat, b: nat)
    requires
        m.raster.wf(),
        m.raster.width <= m.width,
        m.raster.height <= m.height,
        a < b,
        axis == 0 ==> b <= m.raster.width,
        axis != 0 ==> b <= m.raster.height,
    ensures
        ({
            let p = split_piece(m, axis, (a, b)).raster;
            &&& p.mode == m.raster.mode
            &&& axis == 0 ==> {
                &&& p.width == b - a
                &&& p.height == m.raster.height
                &&& forall|x: int, y: int|
                    0 <= x < b - a && 0 <= y < m.raster.height ==> #[trigger] p.rows[y][x]
                        == m.raster.rows[y][a + x]
            }
            &&& axis != 0 ==> {
                &&& p.width == m.raster.width
                &&& p.height == b - a
                &&& forall|x: int, y: int|
                    0 <= x < m.raster.width && 0 <= y < b - a ==> #[trigger] p.rows[y][x]
                        == m.raster.rows[a + y][x]
            }
            &&& split_piece(m, axis, (a, b)).width == p.width
            &&& split_piece(m, axis, (a, b)).height == p.height
        }),
{
}

/// Strips that tile [start, limit) hold every position of it.
proof fn lemma_spans_cover(s: Seq<(nat, nat)>, start: nat, limit: nat, x: nat)
    requires
        s.len() > 0,
        s[0].0 == start,
        s.last().1 == limit,
        forall|i: int| 0 <= i < s.len() ==> #[trigger] s[i].0 < s[i].1,
        forall|i: int| 0 <= i < s.len() - 1 ==> #[trigger] s[i].1 == s[i + 1].0,
        start <= x < limit,
    ensures
        exists|i: int| 0 <= i < s.len() && #[trigger] s[i].0 <= x < s[i].1,
    decreases s.len(),
{
    if x < s[0].1 {
        assert(s[0].0 <= x < s[0].1);
    } else {
        let t = s.drop_first();
        assert(s.len() > 1);
        assert(s[0].1 == s[1].0);
        assert forall|i: int| 0 <= i < t.len() - 1 implies #[trigger] t[i].1 == t[i + 1].0 by {
            assert(s[i + 1].1 == s[i + 2].0);
        }
        assert forall|i: int| 0 <= i < t.len() implies #[trigger] t[i].0 < t[i].1 by {
            assert(s[i + 1].0 < s[i + 1].1);
        }
        lemma_spans_cover(t, s[1].0, limit, x);
        let i = choose|i: int| 0 <= i < t.len() && #[trigger] t[i].0 <= x < t[i].1;
        assert(s[i + 1] == t[i]);
    }
}

/// Piece `i` of the split holds pixel (`x`, `y`) of the image: its strip
/// holds the pixel's column (vertical split) or row (horizontal split), and
/// the piece has the pixel at that position less the strip's start.
pub open spec fn piece_holds(m: ImageModel, axis: u32, points: Seq<u32>, i: int, x: int, y: int) -> bool {
    let limit = if axis == 0 {
        m.width
    } else {
        m.height
    };
    let sp = split_spans(points, limit, 0);
    let ps = split_pieces(m, axis, points);
    &&& 0 <= i < ps.len()
    &&& i < sp.len()
    &&& if axis == 0 {
        &&& sp[i].0 <= x < sp[i].1
        &&& ps[i].raster.rows[y][x - sp[i].0] == m.raster.rows[y][x]
    } else {
        &&& sp[i].0 <= y < sp[i].1
        &&& ps[i].raster.rows[y - sp[i].0][x] == m.raster.rows[y][x]
    }
}

/// Pixel (`x`, `y`) of the image sits in some piece of the split.
pub open spec fn found_in_pieces(m: ImageModel, axis: u32, points: Seq<u32>, x: int, y: int) -> bool {
    exists|i: int| #[trigger] piece_holds(m, axis, points, i, x, y)
}

/// Laid side by side (vertical split) or stacked (horizontal split), the
/// pieces give back the image: the strips tile the split side, each piece
/// spans the whole other side, and every pixel of the image is found in the
/// piece whose strip holds it, shifted by the strip's start.
pub proof fn lemma_split_rebuilds_image(m: ImageModel, axis: u32, points: Seq<u32>)
    requires
        m.raster.wf(),
        m.width == m.raster.width,
        m.height == m.raster.height,
    ensures
        ({
            let limit = if axis == 0 {
                m.width
            } else {
                m.height
            };
            let across = if axis == 0 {
                m.height
            } else {
                m.width
            };
            let sp = split_spans(points, limit, 0);
            let ps = split_pieces(m, axis, points);
            &&& across > 0 ==> ps.len() == sp.len()
            &&& across > 0 && limit > 0 ==> sp.len() > 0 && sp[0].0 == 0 && sp.last().1 == limit
            &&& forall|i: int| 0 <= i < sp.len() - 1 ==> #[trigger] sp[i].1 == sp[i + 1].0
            &&& forall|i: int|
                0 <= i < ps.len() ==> {
                    &&& axis == 0 ==> (#[trigger] ps[i]).raster.height == m.height
                        && ps[i].raster.width == sp[i].1 - sp[i].0
                    &&& axis != 0 ==> ps[i].raster.width == m.width && ps[i].raster.height
                        == sp[i].1 - sp[i].0
                }
            &&& forall|x: int, y: int|
                0 <= x < m.width && 0 <= y < m.height ==> #[trigger] found_in_pieces(m, axis, points, x, y)
        }),
{
    let limit = if axis == 0 {
        m.width
    } else {
        m.height
    };
    let across = if axis == 0 {
        m.height
    } else {
        m.width
    };
    let sp = split_spans(points, limit, 0);
    let ps = split_pieces(m, axis, points);
    lemma_split_spans_tile(points, limit, 0);
    assert(across > 0 ==> ps.len() == sp.len());
    assert(across > 0 && limit > 0 ==> sp.len() > 0 && sp[0].0 == 0 && sp.last().1 == limit);
    assert forall|i: int| 0 <= i < ps.len() implies {
        &&& axis == 0 ==> (#[trigger] ps[i]).raster.height == m.height && ps[i].raster.width
            == sp[i].1 - sp[i].0
        &&& axis != 0 ==> ps[i].raster.width == m.width && ps[i].raster.height == sp[i].1
            - sp[i].0
    } by {
        assert(across > 0);
        lemma_split_spans_bounded(points, limit, 0, i);
        lemma_split_piece_shape(m, axis, sp[i].0, sp[i].1);
    }
    assert forall|x: int, y: int| 0 <= x < m.width && 0 <= y < m.height implies #[trigger] found_in_pieces(
        m,
        axis,
        points,
        x,
        y,
    ) by {
        let pos: nat = if axis == 0 {
            x as nat
        } else {
            y as nat
        };
        lemma_spans_cover(sp, 0, limit, pos);
        let i = choose|i: int| 0 <= i < sp.len() && #[trigger] sp[i].0 <= pos < sp[i].1;
        lemma_split_spans_bounded(points, limit, 0, i);
        lemma_split_piece_shape(m, axis, sp[i].0, sp[i].1);
        assert(sp[i] == (sp[i].0, sp[i].1));
        assert(across > 0);
        assert(0 <= i < ps.len());
        assert(ps[i] == split_piece(m, axis, sp[i]));
        if axis == 0 {
            assert(ps[i].raster.rows[y][x - sp[i].0] == m.raster.rows[y][sp[i].0 + (x - sp[i].0)]);
            assert(sp[i].0 <= x < sp[i].1 && ps[i].raster.rows[y][x - sp[i].0] == m.raster.rows[y][x]);
        } else {
            assert(ps[i].raster.rows[y - sp[i].0][x] == m.raster.rows[sp[i].0 + (y - sp[i].0)][x]);
            assert(sp[i].0 <= y < sp[i].1 && ps[i].raster.rows[y - sp[i].0][x] == m.raster.rows[y][x]);
        }
        assert(piece_holds(m, axis, points, i, x, y));
    }
}

/// Every strip of a split lies within [start, limit].
proof fn lemma_split_spans_bounded(points: Seq<u32>, limit: nat, start: nat, i: int)
    requires
        start <= limit,
        0 <= i < split_spans(points, limit, start).len(),
    ensures
        start <= split_spans(points, limit, start)[i].0,
        split_spans(points, limit, start)[i].1 <= limit,
    decreases points.len(),
{
    if points.len() > 0 {
        let p = points[0] as nat;
        if p <= start || p > limit {
            lemma_split_spans_bounded(points.drop_first(), limit, start, i);
        } else {
            let rest = split_spans(points.drop_first(), limit, p);
            assert(split_spans(points, limit, start) == seq![(start, p)] + rest);
            if i > 0 {
                lemma_split_spans_bounded(points.drop_first(), limit, p, i - 1);
            }
        }
    }
}

/// Every strip but the last ends at a cut point lying strictly inside
/// (`start`, `limit`).
proof fn lemma_strip_ends_are_cuts(points: Seq<u32>, limit: nat, start: nat, k: int)
    requires
        start <= limit,
        0 <= k < split_spans(points, limit, start).len() - 1,
    ensures
        start < split_spans(points, limit, start)[k].1 < limit,
        points.contains(split_spans(points, limit, start)[k].1 as u32),
    decreases points.len(),
{
    let sp = split_spans(points, limit, start);
    if points.len() == 0 {
    } else {
        let p = points[0] as nat;
        let rest = points.drop_first();
        if p <= start || p > limit {
            lemma_strip_ends_are_cuts(rest, limit, start, k);
            let n = choose|n: int| 0 <= n < rest.len() && rest[n] == sp[k].1 as u32;
            assert(points[n + 1] == rest[n]);
        } else {
            let sp2 = split_spans(rest, limit, p);
            lemma_split_spans_tile(rest, limit, p);
            assert(sp == seq![(start, p)] + sp2);
            if k == 0 {
                assert(sp2.len() > 0);
                assert(points[0] == sp[0].1 as u32);
            } else {
                assert(sp[k] == sp2[k - 1]);
                lemma_strip_ends_are_cuts(rest, limit, p, k - 1);
                let n = choose|n: int| 0 <= n < rest.len() && rest[n] == sp2[k - 1].1 as u32;
                assert(points[n + 1] == rest[n]);
            }
        }
    }
}

/// With cut points in ascending order, every cut point strictly inside
/// (`start`, `limit`) ends a strip.
proof fn lemma_cuts_end_strips(points: Seq<u32>, limit: nat, start: nat, n: int)
    requires
        ascending(points),
        start <= limit,
        0 <= n < points.len(),
        start < points[n] < limit,
    ensures
        exists|k: int|
            0 <= k < split_spans(points, limit, start).len() - 1 && #[trigger] split_spans(
                points,
                limit,
                start,
            )[k].1 == points[n] as nat,
    decreases points.len(),
{
    let sp = split_spans(points, limit, start);
    let p = points[0] as nat;
    let rest = points.drop_first();
    assert(ascending(rest)) by {
        assert forall|a: int, b: int| 0 <= a < b < rest.len() implies rest[a] <= rest[b] by {
            assert(points[a + 1] <= points[b + 1]);
        }
    }
    assert(points[0] <= points[n]);
    if p <= start || p > limit {
        assert(n > 0);
        assert(rest[n - 1] == points[n]);
        lemma_cuts_end_strips(rest, limit, start, n - 1);
    } else {
        let sp2 = split_spans(rest, limit, p);
        lemma_split_spans_tile(rest, limit, p);
        assert(sp == seq![(start, p)] + sp2);
        if points[n] as nat == p {
            assert(sp2.len() > 0);
            assert(sp[0].1 == p);
        } else {
            assert(n > 0);
            assert(rest[n - 1] == points[n]);
            lemma_cuts_end_strips(rest, limit, p, n - 1);
            let k = choose|k: int| 0 <= k < sp2.len() - 1 && #[trigger] sp2[k].1 == rest[n - 1] as nat;
            assert(sp[k + 1] == sp2[k]);
        }
    }
}

/// With cut points in ascending order, the strips end exactly at the cut
/// points that fall strictly inside (`start`, `limit`): every strip but the
/// last ends at such a point, and every such point ends a strip.
pub proof fn lemma_strips_end_at_cuts(points: Seq<u32>, limit: nat, start: nat)
    requires
        ascending(points),
        start <= limit,
    ensures
        forall|k: int|
            0 <= k < split_spans(points, limit, start).len() - 1 ==> start < (#[trigger] split_spans(
                points,
                limit,
                start,
            )[k]).1 < limit && points.contains(split_spans(points, limit, start)[k].1 as u32),
        forall|n: int|
            0 <= n < points.len() && start < #[trigger] points[n] < limit ==> exists|k: int|
                0 <= k < split_spans(points, limit, start).len() - 1 && #[trigger] split_spans(
                    points,
                    limit,
                    start,
                )[k].1 == points[n] as nat,
{
    assert forall|k: int| 0 <= k < split_spans(points, limit, start).len() - 1 implies start < (
    #[trigger] split_spans(points, limit, start)[k]).1 < limit && points.contains(
        split_spans(points, limit, start)[k].1 as u32,
    ) by {
        lemma_strip_ends_are_cuts(points, limit, start, k);
    }
    assert forall|n: int| 0 <= n < points.len() && start < #[trigger] points[n] < limit implies exists|k: int|
        0 <= k < split_spans(points, limit, start).len() - 1 && #[trigger] split_spans(
            points,
            limit,
            start,
        )[k].1 == points[n] as nat by {
        lemma_cuts_end_strips(points, limit, start, n);
    }
}

/// The cut positions of a split request (everything after the axis).
pub open spec fn requested_cuts(cuts: Seq<u32>) -> Seq<u32> {
    cuts.subrange(1, cuts.len() as int)
}

/// The side a split along `axis` cuts across: the width for 0, else the height.
pub open spec fn split_side(m: ImageModel, axis: u32) -> nat {
    if axis == 0 {
        m.width
    } else {
        m.height
    }
}

/// The strips a split request walks out, its positions taken in ascending order.
pub open spec fn requested_strips(m: ImageModel, cuts: Seq<u32>) -> Seq<(nat, nat)> {
    split_spans(requested_cuts(cuts).sort_by(leq_u32()), split_side(m, cuts[0]), 0)
}

/// A split request cuts exactly where it asks: every strip but the last ends
/// at a requested position strictly inside the image's side, and every such
/// requested position ends a strip.
pub proof fn lemma_split_cuts_where_asked(m: ImageModel, cuts: Seq<u32>)
    requires
        cuts.len() >= 1,
    ensures
        forall|k: int|
            0 <= k < requested_strips(m, cuts).len() - 1 ==> 0 < (#[trigger] requested_strips(
                m,
                cuts,
            )[k]).1 < split_side(m, cuts[0]) && requested_cuts(cuts).contains(
                requested_strips(m, cuts)[k].1 as u32,
            ),
        forall|n: int|
            0 <= n < requested_cuts(cuts).len() && 0 < #[trigger] requested_cuts(cuts)[n] < split_side(
                m,
                cuts[0],
            ) ==> exists|k: int|
                0 <= k < requested_strips(m, cuts).len() - 1 && (#[trigger] requested_strips(
                    m,
                    cuts,
                )[k]).1 == requested_cuts(cuts)[n] as nat,
{
    broadcast use vstd::seq_lib::group_to_multiset_ensures;

    let tail = requested_cuts(cuts);
    let limit = split_side(m, cuts[0]);
    crate::sorting::lemma_leq_u32_total();
    tail.lemma_sort_by_ensures(leq_u32());
    let st = tail.sort_by(leq_u32());
    let sp = requested_strips(m, cuts);
    assert(sp == split_spans(st, limit, 0));
    assert forall|x: u32| st.contains(x) <==> tail.contains(x) by {
        assert(tail.to_multiset().count(x) == st.to_multiset().count(x));
    }
    assert(ascending(st)) by {
        assert forall|i: int, j: int| 0 <= i < j < st.len() implies st[i] <= st[j] by {
            assert(leq_u32()(st[i], st[j]));
        }
    }
    assert forall|k: int| 0 <= k < sp.len() - 1 implies 0 < (#[trigger] sp[k]).1 < limit
        && tail.contains(sp[k].1 as u32) by {
        lemma_strip_ends_are_cuts(st, limit, 0, k);
    }
    assert forall|n: int| 0 <= n < tail.len() && 0 < #[trigger] tail[n] < limit implies exists|k: int|
        0 <= k < sp.len() - 1 && (#[trigger] sp[k]).1 == tail[n] as nat by {
        assert(tail.contains(tail[n]));
        assert(st.contains(tail[n]));
        let j = choose|j: int| 0 <= j < st.len() && st[j] == tail[n];
        lemma_cuts_end_strips(st, limit, 0, j);
    }
}

impl FenrirImage {
    /// The piece of the image covering strip [a, b) across `axis`.
    fn cut_piece(&self, axis: u32, a: u32, b: u32) -> (img: FenrirImage)
        requires
            self.wf(),
            a < b,
        ensures
            img.wf(),
            img@ == split_piece(self@, axis, (a as nat, b as nat)),
    {
        let (w, h) = self.get_size();
        let raster = if axis == 0 {
            self.raster().crop(a, 0, b - a, h)
        } else {
            self.raster().crop(0, a, w, b - a)
        };
        FenrirImage::from_raster(raster)
    }

    /// Splits the image into strips. `cuts[0]` picks the axis (0: vertical
    /// cuts into columns, 1: horizontal cuts into rows) and the other values
    /// are cut positions, taken in ascending order.
    pub fn split(&self, cuts: Vec<u32>) -> (r: Result<Vec<FenrirImage>, FenrirError>)
        requires
            self.wf(),
        ensures
            split_error(cuts@) matches Some(e) ==> r == Err::<Vec<FenrirImage>, FenrirError>(e),
            split_error(cuts@) is None ==> (r matches Ok(v) && {
                let pieces = split_pieces(
                    self@,
                    cuts@[0],
                    cuts@.subrange(1, cuts@.len() as int).sort_by(leq_u32()),
                );
                &&& v@.len() == pieces.len()
                &&& forall|i: int| 0 <= i < v@.len() ==> (#[trigger] v@[i]).wf() && v@[i]@ == pieces[i]
            }),
    {
        if cuts.len() < 2 {
            return Err(FenrirError::SplitTooShort);
        }
        let axis = cuts[0];
        if axis != 0 && axis != 1 {
            return Err(FenrirError::SplitBadAxis);
        }
        let points = sorted_tail(&cuts, 1);
        let (w, h) = self.get_size();
        let limit = if axis == 0 {
            w
        } else {
            h
        };
        let across = if axis == 0 {
            h
        } else {
            w
        };
        let ghost all = split_spans(points@, limit as nat, 0);
        let ghost expected = split_pieces(self@, axis, points@);
        let mut segments: Vec<FenrirImage> = Vec::new();
        if across == 0 {
            proof {
                assert(expected =~= Seq::<ImageModel>::empty());
            }
            return Ok(segments);
        }
        let mut start: u32 = 0;
        let ghost mut done: Seq<(nat, nat)> = Seq::empty();
        let mut k: usize = 0;
        proof {
            assert(points@.skip(0) =~= points@);
        }
        while k < points.len()
            invariant
                self.wf(),
                0 <= k <= points@.len(),
                start <= limit,
                across > 0,
                limit == (if axis == 0 {
                    self@.width
                } else {
                    self@.height
                }),
                across == (if axis == 0 {
                    self@.height
                } else {
                    self@.width
                }),
                all == split_spans(points@, limit as nat, 0),
                all == done + split_spans(points@.skip(k as int), limit as nat, start as nat),
                segments@.len() == done.len(),
                forall|i: int|
                    0 <= i < done.len() ==> (#[trigger] segments@[i]).wf() && segments@[i]@
                        == split_piece(self@, axis, done[i]),
            decreases points@.len() - k,
        {
            let point = points[k];
            proof {
                let tail = points@.skip(k as int);
                assert(tail[0] == point);
                assert(tail.drop_first() =~= points@.skip(k + 1));
            }
            if point <= start || point > limit {
                k += 1;
                continue;
            }
            let piece = self.cut_piece(axis, start, point);
            segments.push(piece);
            proof {
                let tail = points@.skip(k as int);
                let rest = split_spans(points@.skip(k + 1), limit as nat, point as nat);
                assert(split_spans(tail, limit as nat, start as nat) == seq![
                    (start as nat, point as nat),
                ] + rest);
                assert(done + split_spans(tail, limit as nat, start as nat) =~= done.push(
                    (start as nat, point as nat),
                ) + rest);
                done = done.push((start as nat, point as nat));
                assert forall|i: int| 0 <= i < done.len() implies (#[trigger] segments@[i]).wf()
                    && segments@[i]@ == split_piece(self@, axis, done[i]) by {}
            }
            start = point;
            k += 1;
        }
        proof {
            assert(points@.skip(k as int) =~= Seq::<u32>::empty());
        }
        if start < limit {
            let piece = self.cut_piece(axis, start, limit);
            segments.push(piece);
            proof {
                assert(all =~= done.push((start as nat, limit as nat)));
                done = done.push((start as nat, limit as nat));
            }
        } else {
            proof {
                assert(all =~= done);
            }
        }
        proof {
            assert(expected =~= all.map_values(|s: (nat, nat)| split_piece(self@, axis, s)));
            assert forall|i: int| 0 <= i < segments@.len() implies (#[trigger] segments@[i]).wf()
                && segments@[i]@ == expected[i] by {}
        }
        Ok(segments)
    }
}

} // verus!
