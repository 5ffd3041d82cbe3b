//! The distance-field stage: the negative form.
//!
//! For every output pixel, find the squared pixel distance to the
//! nearest mark (input sample 0) within the fade window, convert it to
//! micrometres, and map it through the fade curve. Pixels with no mark
//! within fade range become full white. The output is the horizontal
//! mirror of the input frame: the punch is used from the opposite face
//! of the sheet.

use vstd::prelude::*;
use vstd::arithmetic::div_mod::lemma_fundamental_div_mod;
use vstd::arithmetic::div_mod::lemma_mod_bound;
use vstd::arithmetic::mul::lemma_mul_nonnegative;
use vstd::arithmetic::mul::lemma_mul_upper_bound;
use crate::fade::MAX_SAMPLE;
use crate::fade::fade_fn;
use crate::fade::fade_spec;
use crate::fade::lemma_fade_spec_bounds;
use crate::fade::lemma_fade_spec_monotone;
use crate::fade::lemma_fade_spec_saturates;
use crate::fade::lemma_fade_spec_zero;
use crate::grid::Grid;
use crate::math::isqrt;
use crate::math::lemma_sqrt_floor_monotone;
use crate::math::lemma_sqrt_floor_of_square;
use crate::math::sqrt_floor;

verus! {

/// Squared pixel distance between pixels `(px, py)` and `(qx, qy)`.
pub open spec fn pix_d2(px: int, py: int, qx: int, qy: int) -> int {
    (px - qx) * (px - qx) + (py - qy) * (py - qy)
}

/// A mark: an in-bounds input pixel holding the sentinel sample 0.
pub open spec fn is_mark(g: &Grid, qx: int, qy: int) -> bool {
    &&& 0 <= qx < g.spec_width()
    &&& 0 <= qy < g.spec_height()
    &&& g.at(qx, qy) == 0
}

/// Micrometre distance for a squared pixel distance `d2` at a pixel
/// pitch of `u` micrometres: `floor(u * sqrt(d2))`.
pub open spec fn dist_um_spec(d2: int, u: int) -> int
    recommends
        0 <= d2,
        0 < u,
{
    sqrt_floor((d2 * u * u) as nat) as int
}

/// Micrometre distance for squared pixel distance `d2` at pitch
/// `um_per_px`.
pub fn distance_um(d2: u64, um_per_px: u32) -> (r: u64)
    ensures
        r as int == dist_um_spec(d2 as int, um_per_px as int),
{
    let du: u128 = d2 as u128;
    let uu: u128 = um_per_px as u128;
    proof {
        lemma_mul_upper_bound(du as int, 0xffff_ffff_ffff_ffffint, uu as int, 0xffff_ffffint);
        lemma_mul_nonnegative(du as int, uu as int);
        lemma_mul_upper_bound(
            du as int * uu as int,
            0xffff_ffff_ffff_ffffint * 0xffff_ffffint,
            uu as int,
            0xffff_ffffint,
        );
    }
    let prod: u128 = du * uu * uu;
    let r = isqrt(prod);
    proof {
        assert(prod == d2 as int * um_per_px as int * um_per_px as int);
    }
    r
}

/// The window searched around `(px, py)`: in-bounds pixels within
/// `rpx` rows and columns.
pub open spec fn in_window(g: &Grid, px: int, py: int, rpx: int, qx: int, qy: int) -> bool {
    &&& 0 <= qx < g.spec_width()
    &&& 0 <= qy < g.spec_height()
    &&& px - rpx <= qx <= px + rpx
    &&& py - rpx <= qy <= py + rpx
}

/// The part of the window already passed by a scan standing at row
/// `cy`, column `cx`.
pub open spec fn win_scanned(
    g: &Grid,
    px: int,
    py: int,
    rpx: int,
    qx: int,
    qy: int,
    cy: int,
    cx: int,
) -> bool {
    &&& in_window(g, px, py, rpx, qx, qy)
    &&& (qy < cy || (qy == cy && qx < cx))
}

/// What a correct "minimum squared distance to a mark" is for the part
/// of the window a scan standing at row `cy`, column `cx` has passed.
pub open spec fn min_mark_d2_ok(
    g: &Grid,
    px: int,
    py: int,
    rpx: int,
    cy: int,
    cx: int,
    r: Option<u64>,
) -> bool {
    match r {
        None => forall|qx: int, qy: int|
            win_scanned(g, px, py, rpx, qx, qy, cy, cx) ==> !(#[trigger] is_mark(g, qx, qy)),
        Some(m) => {
            &&& exists|qx: int, qy: int|
                win_scanned(g, px, py, rpx, qx, qy, cy, cx) && #[trigger] is_mark(g, qx, qy)
                    && pix_d2(px, py, qx, qy) == m as int
            &&& forall|qx: int, qy: int|
                win_scanned(g, px, py, rpx, qx, qy, cy, cx) && #[trigger] is_mark(g, qx, qy)
                    ==> pix_d2(px, py, qx, qy) >= m as int
        },
    }
}

/// Squared pixel distance to the nearest mark within the fade window
/// around `(x, y)`, or `None` when the window holds no mark.
///
/// The window reaches `fade_um / um_per_px` pixels in every direction:
/// far enough that every mark at micrometre distance at most `fade_um`
/// lies inside it.
pub fn closest_mark_d2(g: &Grid, x: usize, y: usize, fade_um: u32, um_per_px: u32) -> (r: Option<
    u64,
>)
    requires
        g.wf(),
        x < g.spec_width(),
        y < g.spec_height(),
        um_per_px >= 1,
    ensures
        min_mark_d2_ok(
            g,
            x as int,
            y as int,
            fade_um as int / um_per_px as int,
            g.spec_height(),
            0,
            r,
        ),
{
    proof {
        g.lemma_wf_bounds();
    }
    let w = g.width();
    let h = g.height();
    let rpx: u64 = (fade_um / um_per_px) as u64;
    let ghost rp = rpx as int;
    let x0: usize = if (x as u64) > rpx {
        (x as u64 - rpx) as usize
    } else {
        0
    };
    let y0: usize = if (y as u64) > rpx {
        (y as u64 - rpx) as usize
    } else {
        0
    };
    let x1: usize = if (x as u64) + rpx >= (w - 1) as u64 {
        w - 1
    } else {
        (x as u64 + rpx) as usize
    };
    let y1: usize = if (y as u64) + rpx >= (h - 1) as u64 {
        h - 1
    } else {
        (y as u64 + rpx) as usize
    };
    let mut best: Option<u64> = None;
    let mut qy: usize = y0;
    while qy <= y1
        invariant
            g.wf(),
            g.spec_width() <= 0x7fff_ffff,
            g.spec_height() <= 0x7fff_ffff,
            x < g.spec_width(),
            y < g.spec_height(),
            x0 == if x as int - rp > 0 { x as int - rp } else { 0int },
            y0 == if y as int - rp > 0 { y as int - rp } else { 0int },
            x1 == if x as int + rp < g.spec_width() - 1 { x as int + rp } else { g.spec_width() - 1 },
            y1 == if y as int + rp < g.spec_height() - 1 { y as int + rp } else { g.spec_height() - 1 },
            y0 <= qy <= y1 + 1,
            min_mark_d2_ok(g, x as int, y as int, rp, qy as int, x0 as int, best),
        decreases y1 + 1 - qy,
    {
        let mut qx: usize = x0;
        while qx <= x1
            invariant
                g.wf(),
                g.spec_width() <= 0x7fff_ffff,
                g.spec_height() <= 0x7fff_ffff,
                x < g.spec_width(),
                y < g.spec_height(),
                x0 == if x as int - rp > 0 { x as int - rp } else { 0int },
                y0 == if y as int - rp > 0 { y as int - rp } else { 0int },
                x1 == if x as int + rp < g.spec_width() - 1 { x as int + rp } else { g.spec_width() - 1 },
                y1 == if y as int + rp < g.spec_height() - 1 { y as int + rp } else { g.spec_height() - 1 },
                y0 <= qy <= y1,
                x0 <= qx <= x1 + 1,
                min_mark_d2_ok(g, x as int, y as int, rp, qy as int, qx as int, best),
            decreases x1 + 1 - qx,
        {
            let ghost old_best = best;
            let dx: i64 = x as i64 - qx as i64;
            let dy: i64 = y as i64 - qy as i64;
            proof {
                assert(0 <= dx * dx < 0x4000_0000_0000_0000) by (nonlinear_arith)
                    requires
                        -0x7fff_ffff <= dx <= 0x7fff_ffff,
                ;
                assert(0 <= dy * dy < 0x4000_0000_0000_0000) by (nonlinear_arith)
                    requires
                        -0x7fff_ffff <= dy <= 0x7fff_ffff,
                ;
            }
            let d2: u64 = (dx * dx) as u64 + (dy * dy) as u64;
            proof {
                assert(d2 as int == pix_d2(x as int, y as int, qx as int, qy as int));
            }
            if g.get(qx, qy) == 0 {
                best = match best {
                    None => Some(d2),
                    Some(m) => if d2 < m {
                        Some(d2)
                    } else {
                        Some(m)
                    },
                };
            }
            proof {
                lemma_scan_cell(
                    g,
                    x as int,
                    y as int,
                    rp,
                    qy as int,
                    qx as int,
                    old_best,
                    best,
                    d2,
                );
            }
            qx = qx + 1;
        }
        proof {
            lemma_scan_row(
                g,
                x as int,
                y as int,
                rp,
                qy as int,
                x0 as int,
                x1 as int,
                best,
            );
        }
        qy = qy + 1;
    }
    proof {
        lemma_scan_done(g, x as int, y as int, rp, y0 as int, y1 as int, x0 as int, best);
    }
    best
}

/// Advancing past a handled cell keeps the minimum correct.
proof fn lemma_scan_cell(
    g: &Grid,
    px: int,
    py: int,
    rpx: int,
    cy: int,
    cx: int,
    old_best: Option<u64>,
    new_best: Option<u64>,
    celld2: u64,
)
    requires
        min_mark_d2_ok(g, px, py, rpx, cy, cx, old_best),
        in_window(g, px, py, rpx, cx, cy),
        celld2 as int == pix_d2(px, py, cx, cy),
        is_mark(g, cx, cy) ==> new_best == Some(
            match old_best {
                None => celld2,
                Some(m) => if celld2 < m {
                    celld2
                } else {
                    m
                },
            },
        ),
        !is_mark(g, cx, cy) ==> new_best == old_best,
    ensures
        min_mark_d2_ok(g, px, py, rpx, cy, cx + 1, new_best),
{
    if is_mark(g, cx, cy) {
        let m2 = new_best->Some_0;
        assert(win_scanned(g, px, py, rpx, cx, cy, cy, cx + 1));
        if old_best is Some {
            let m = old_best->Some_0;
            if celld2 >= m {
                let (wx, wy) = choose|qx: int, qy: int|
                    win_scanned(g, px, py, rpx, qx, qy, cy, cx) && #[trigger] is_mark(g, qx, qy)
                        && pix_d2(px, py, qx, qy) == m as int;
                assert(win_scanned(g, px, py, rpx, wx, wy, cy, cx + 1) && is_mark(g, wx, wy));
            }
        }
        assert forall|qx: int, qy: int|
            win_scanned(g, px, py, rpx, qx, qy, cy, cx + 1) && #[trigger] is_mark(g, qx, qy)
            implies pix_d2(px, py, qx, qy) >= m2 as int by {
            if !(qx == cx && qy == cy) {
                assert(win_scanned(g, px, py, rpx, qx, qy, cy, cx));
            }
        }
    } else {
        match new_best {
            None => {
                assert forall|qx: int, qy: int|
                    win_scanned(g, px, py, rpx, qx, qy, cy, cx + 1) implies !(#[trigger] is_mark(
                    g,
                    qx,
                    qy,
                )) by {
                    if !(qx == cx && qy == cy) {
                        assert(win_scanned(g, px, py, rpx, qx, qy, cy, cx));
                    }
                }
            },
            Some(m) => {
                assert forall|qx: int, qy: int|
                    win_scanned(g, px, py, rpx, qx, qy, cy, cx + 1) && #[trigger] is_mark(g, qx, qy)
                    implies pix_d2(px, py, qx, qy) >= m as int by {
                    if !(qx == cx && qy == cy) {
                        assert(win_scanned(g, px, py, rpx, qx, qy, cy, cx));
                    }
                }
                let (wx, wy) = choose|qx: int, qy: int|
                    win_scanned(g, px, py, rpx, qx, qy, cy, cx) && #[trigger] is_mark(g, qx, qy)
                        && pix_d2(px, py, qx, qy) == m as int;
                assert(win_scanned(g, px, py, rpx, wx, wy, cy, cx + 1) && is_mark(g, wx, wy));
            },
        }
    }
}

/// Moving from the end of one row to the start of the next keeps the
/// minimum correct.
proof fn lemma_scan_row(
    g: &Grid,
    px: int,
    py: int,
    rpx: int,
    cy: int,
    x0: int,
    x1: int,
    best: Option<u64>,
)
    requires
        min_mark_d2_ok(g, px, py, rpx, cy, x1 + 1, best),
        x0 == if px - rpx > 0 { px - rpx } else { 0int },
        x1 == if px + rpx < g.spec_width() - 1 { px + rpx } else { g.spec_width() - 1 },
    ensures
        min_mark_d2_ok(g, px, py, rpx, cy + 1, x0, best),
{
    match best {
        None => {
            assert forall|qx: int, qy: int|
                win_scanned(g, px, py, rpx, qx, qy, cy + 1, x0) implies !(#[trigger] is_mark(
                g,
                qx,
                qy,
            )) by {
                assert(win_scanned(g, px, py, rpx, qx, qy, cy, x1 + 1));
            }
        },
        Some(m) => {
            assert forall|qx: int, qy: int|
                win_scanned(g, px, py, rpx, qx, qy, cy + 1, x0) && #[trigger] is_mark(g, qx, qy)
                implies pix_d2(px, py, qx, qy) >= m as int by {
                assert(win_scanned(g, px, py, rpx, qx, qy, cy, x1 + 1));
            }
        },
    }
}

/// After the last row the scanned region is the whole window.
proof fn lemma_scan_done(
    g: &Grid,
    px: int,
    py: int,
    rpx: int,
    y0: int,
    y1: int,
    x0: int,
    best: Option<u64>,
)
    requires
        min_mark_d2_ok(g, px, py, rpx, y1 + 1, x0, best),
        0 <= px < g.spec_width(),
        0 <= py < g.spec_height(),
        0 <= rpx,
        x0 == if px - rpx > 0 { px - rpx } else { 0int },
        y0 == if py - rpx > 0 { py - rpx } else { 0int },
        y1 == if py + rpx < g.spec_height() - 1 { py + rpx } else { g.spec_height() - 1 },
    ensures
        min_mark_d2_ok(g, px, py, rpx, g.spec_height(), 0, best),
{
    match best {
        None => {
            assert forall|qx: int, qy: int|
                win_scanned(g, px, py, rpx, qx, qy, g.spec_height(), 0) implies !(
            #[trigger] is_mark(g, qx, qy)) by {
                assert(win_scanned(g, px, py, rpx, qx, qy, y1 + 1, x0));
            }
        },
        Some(m) => {
            assert forall|qx: int, qy: int|
                win_scanned(g, px, py, rpx, qx, qy, g.spec_height(), 0) && #[trigger] is_mark(
                g,
                qx,
                qy,
            ) implies pix_d2(px, py, qx, qy) >= m as int by {
                assert(win_scanned(g, px, py, rpx, qx, qy, y1 + 1, x0));
            }
        },
    }
}

/// What a correct negative-form sample `s` at source pixel `(px, py)`
/// is: at most the faded distance of every mark in the image, and
/// either full white or exactly the faded distance of some mark. This
/// pins `s` down as the minimum of full white and the faded distance of
/// the nearest mark.
pub open spec fn neg_sample_ok(g: &Grid, px: int, py: int, f: int, u: int, s: int) -> bool {
    &&& 0 <= s <= MAX_SAMPLE as int
    &&& forall|qx: int, qy: int|
        #[trigger] is_mark(g, qx, qy) ==> s <= fade_spec(
            dist_um_spec(pix_d2(px, py, qx, qy), u),
            f,
        )
    &&& (s == MAX_SAMPLE as int || exists|qx: int, qy: int|
        #[trigger] is_mark(g, qx, qy) && s == fade_spec(dist_um_spec(pix_d2(px, py, qx, qy), u), f))
}

/// The micrometre distance grows with the squared pixel distance.
pub proof fn lemma_dist_um_monotone(d2a: int, d2b: int, u: int)
    requires
        0 <= d2a <= d2b,
        1 <= u,
    ensures
        dist_um_spec(d2a, u) <= dist_um_spec(d2b, u),
{
    assert(0 <= d2a * u * u <= d2b * u * u) by (nonlinear_arith)
        requires
            0 <= d2a <= d2b,
            1 <= u,
    ;
    lemma_sqrt_floor_monotone((d2a * u * u) as nat, (d2b * u * u) as nat);
}

/// A pixel outside the search window is farther than the fade distance.
proof fn lemma_outside_window_far(px: int, py: int, qx: int, qy: int, f: int, u: int)
    requires
        1 <= u,
        1 <= f,
        qx < px - f / u || qx > px + f / u || qy < py - f / u || qy > py + f / u,
    ensures
        dist_um_spec(pix_d2(px, py, qx, qy), u) > f,
{
    let rpx = f / u;
    lemma_fundamental_div_mod(f, u);
    lemma_mod_bound(f, u);
    assert(rpx >= 0);
    let dx = px - qx;
    let dy = py - qy;
    let d2 = pix_d2(px, py, qx, qy);
    assert(dx * dx >= 0 && dy * dy >= 0) by (nonlinear_arith);
    if dx >= rpx + 1 || dx <= -(rpx + 1) {
        assert(dx * dx >= (rpx + 1) * (rpx + 1)) by (nonlinear_arith)
            requires
                dx >= rpx + 1 || dx <= -(rpx + 1),
                rpx >= 0,
        ;
    } else {
        assert(dy >= rpx + 1 || dy <= -(rpx + 1));
        assert(dy * dy >= (rpx + 1) * (rpx + 1)) by (nonlinear_arith)
            requires
                dy >= rpx + 1 || dy <= -(rpx + 1),
                rpx >= 0,
        ;
    }
    assert(d2 >= (rpx + 1) * (rpx + 1));
    let b = (rpx + 1) * u;
    assert(b * b <= d2 * u * u) by (nonlinear_arith)
        requires
            b == (rpx + 1) * u,
            d2 >= (rpx + 1) * (rpx + 1),
            (rpx + 1) * (rpx + 1) >= 0,
            1 <= u,
    ;
    assert(b >= 0) by (nonlinear_arith)
        requires
            b == (rpx + 1) * u,
            rpx >= 0,
            u >= 1,
    ;
    lemma_sqrt_floor_of_square(b as nat);
    lemma_sqrt_floor_monotone((b * b) as nat, (d2 * u * u) as nat);
    assert(b == rpx * u + u) by (nonlinear_arith)
        requires
            b == (rpx + 1) * u,
    ;
    assert(u * rpx == rpx * u) by (nonlinear_arith);
    assert(b > f);
}

/// A window minimum yields a correct negative-form sample: the fade of
/// the minimum when a mark was found, full white when none was.
proof fn lemma_sample_from_window_min(
    g: &Grid,
    px: int,
    py: int,
    f: int,
    u: int,
    r: Option<u64>,
    s: int,
)
    requires
        g.wf(),
        0 <= px < g.spec_width(),
        0 <= py < g.spec_height(),
        1 <= f,
        1 <= u,
        min_mark_d2_ok(g, px, py, f / u, g.spec_height(), 0, r),
        match r {
            Some(m) => s == fade_spec(dist_um_spec(m as int, u), f),
            None => s == MAX_SAMPLE as int,
        },
    ensures
        neg_sample_ok(g, px, py, f, u, s),
{
    let rpx = f / u;
    match r {
        None => {
            assert forall|qx: int, qy: int| #[trigger] is_mark(g, qx, qy) implies s <= fade_spec(
                dist_um_spec(pix_d2(px, py, qx, qy), u),
                f,
            ) by {
                assert(!win_scanned(g, px, py, rpx, qx, qy, g.spec_height(), 0));
                assert(!in_window(g, px, py, rpx, qx, qy));
                lemma_outside_window_far(px, py, qx, qy, f, u);
                lemma_fade_spec_saturates(dist_um_spec(pix_d2(px, py, qx, qy), u), f);
            }
        },
        Some(m) => {
            lemma_fade_spec_bounds(dist_um_spec(m as int, u), f);
            assert forall|qx: int, qy: int| #[trigger] is_mark(g, qx, qy) implies s <= fade_spec(
                dist_um_spec(pix_d2(px, py, qx, qy), u),
                f,
            ) by {
                if in_window(g, px, py, rpx, qx, qy) {
                    assert(win_scanned(g, px, py, rpx, qx, qy, g.spec_height(), 0));
                    assert(pix_d2(px, py, qx, qy) >= m as int);
                    lemma_dist_um_monotone(m as int, pix_d2(px, py, qx, qy), u);
                    lemma_fade_spec_monotone(
                        dist_um_spec(m as int, u),
                        dist_um_spec(pix_d2(px, py, qx, qy), u),
                        f,
                    );
                } else {
                    lemma_outside_window_far(px, py, qx, qy, f, u);
                    lemma_fade_spec_saturates(dist_um_spec(pix_d2(px, py, qx, qy), u), f);
                }
            }
            let (wx, wy) = choose|qx: int, qy: int|
                win_scanned(g, px, py, rpx, qx, qy, g.spec_height(), 0) && #[trigger] is_mark(
                    g,
                    qx,
                    qy,
                ) && pix_d2(px, py, qx, qy) == m as int;
            assert(is_mark(g, wx, wy) && s == fade_spec(dist_um_spec(pix_d2(px, py, wx, wy), u), f));
        },
    }
}

/// The negative form: for every output pixel, the fade of the distance
/// to the nearest mark, full white where no mark is within fade range.
/// The output is the horizontal mirror of the input frame.
pub fn compute_negative_form(input: &Grid, fade_um: u32, um_per_px: u32) -> (out: Grid)
    requires
        input.wf(),
        fade_um >= 1,
        um_per_px >= 1,
    ensures
        out.wf(),
        out.spec_width() == input.spec_width(),
        out.spec_height() == input.spec_height(),
        forall|x: int, y: int|
            0 <= x < input.spec_width() && 0 <= y < input.spec_height() ==> neg_sample_ok(
                input,
                input.spec_width() - 1 - x,
                y,
                fade_um as int,
                um_per_px as int,
                #[trigger] out.at(x, y) as int,
            ),
{
    proof {
        input.lemma_wf_bounds();
    }
    let w = input.width();
    let h = input.height();
    let mut out = Grid::new(w, h);
    let mut y: usize = 0;
    while y < h
        invariant
            input.wf(),
            w == input.spec_width(),
            h == input.spec_height(),
            fade_um >= 1,
            um_per_px >= 1,
            out.wf(),
            out.spec_width() == w,
            out.spec_height() == h,
            y <= h,
            forall|i: int, j: int|
                0 <= i < w as int && 0 <= j < y as int ==> neg_sample_ok(
                    input,
                    w as int - 1 - i,
                    j,
                    fade_um as int,
                    um_per_px as int,
                    #[trigger] out.at(i, j) as int,
                ),
        decreases h - y,
    {
        let mut x: usize = 0;
        while x < w
            invariant
                input.wf(),
                w == input.spec_width(),
                h == input.spec_height(),
                fade_um >= 1,
                um_per_px >= 1,
                out.wf(),
                out.spec_width() == w,
                out.spec_height() == h,
                y < h,
                x <= w,
                forall|i: int, j: int|
                    0 <= i < w as int && 0 <= j < y as int ==> neg_sample_ok(
                        input,
                        w as int - 1 - i,
                        j,
                        fade_um as int,
                        um_per_px as int,
                        #[trigger] out.at(i, j) as int,
                    ),
                forall|i: int|
                    0 <= i < x as int ==> neg_sample_ok(
                        input,
                        w as int - 1 - i,
                        y as int,
                        fade_um as int,
                        um_per_px as int,
                        #[trigger] out.at(i, y as int) as int,
                    ),
            decreases w - x,
        {
            let sx: usize = w - 1 - x;
            let found = closest_mark_d2(input, sx, y, fade_um, um_per_px);
            let sample: u16 = match found {
                Some(d2) => fade_fn(distance_um(d2, um_per_px), fade_um),
                None => MAX_SAMPLE,
            };
            proof {
                lemma_sample_from_window_min(
                    input,
                    sx as int,
                    y as int,
                    fade_um as int,
                    um_per_px as int,
                    found,
                    sample as int,
                );
            }
            out.set(x, y, sample);
            x = x + 1;
        }
        y = y + 1;
    }
    out
}

/// At a mark, the negative form is exactly 0: the deepest depression.
pub proof fn lemma_sample_at_mark(g: &Grid, cx: int, cy: int, f: int, u: int, s: int)
    requires
        is_mark(g, cx, cy),
        neg_sample_ok(g, cx, cy, f, u, s),
        1 <= f,
        1 <= u,
    ensures
        s == 0,
{
    assert(pix_d2(cx, cy, cx, cy) == 0);
    assert(dist_um_spec(0, u) == 0) by {
        assert(0int * u * u == 0) by (nonlinear_arith);
    }
    lemma_fade_spec_zero(f);
    assert(s <= fade_spec(dist_um_spec(pix_d2(cx, cy, cx, cy), u), f));
}

/// For an input whose only mark is `(cx, cy)`, the negative-form sample
/// at a source pixel is exactly the faded distance to that mark.
pub proof fn lemma_single_mark_sample(
    g: &Grid,
    cx: int,
    cy: int,
    px: int,
    py: int,
    f: int,
    u: int,
    s: int,
)
    requires
        is_mark(g, cx, cy),
        forall|qx: int, qy: int| #[trigger] is_mark(g, qx, qy) ==> qx == cx && qy == cy,
        neg_sample_ok(g, px, py, f, u, s),
        1 <= f,
        1 <= u,
    ensures
        s == fade_spec(dist_um_spec(pix_d2(px, py, cx, cy), u), f),
{
    let v = fade_spec(dist_um_spec(pix_d2(px, py, cx, cy), u), f);
    assert(s <= v);
    if s != MAX_SAMPLE as int {
        let (wx, wy) = choose|qx: int, qy: int|
            #[trigger] is_mark(g, qx, qy) && s == fade_spec(
                dist_um_spec(pix_d2(px, py, qx, qy), u),
                f,
            );
        assert(wx == cx && wy == cy);
    } else {
        assert(pix_d2(px, py, cx, cy) >= 0) by (nonlinear_arith);
        lemma_fade_spec_bounds(dist_um_spec(pix_d2(px, py, cx, cy), u), f);
    }
}

/// For a single-mark input the negative form does not decrease with the
/// squared distance from the mark: farther pixels are at least as high.
pub proof fn lemma_single_mark_monotone(
    g: &Grid,
    cx: int,
    cy: int,
    p1x: int,
    p1y: int,
    p2x: int,
    p2y: int,
    f: int,
    u: int,
    s1: int,
    s2: int,
)
    requires
        is_mark(g, cx, cy),
        forall|qx: int, qy: int| #[trigger] is_mark(g, qx, qy) ==> qx == cx && qy == cy,
        neg_sample_ok(g, p1x, p1y, f, u, s1),
        neg_sample_ok(g, p2x, p2y, f, u, s2),
        pix_d2(p1x, p1y, cx, cy) <= pix_d2(p2x, p2y, cx, cy),
        1 <= f,
        1 <= u,
    ensures
        s1 <= s2,
{
    lemma_single_mark_sample(g, cx, cy, p1x, p1y, f, u, s1);
    lemma_single_mark_sample(g, cx, cy, p2x, p2y, f, u, s2);
    assert(pix_d2(p1x, p1y, cx, cy) >= 0) by (nonlinear_arith);
    lemma_dist_um_monotone(pix_d2(p1x, p1y, cx, cy), pix_d2(p2x, p2y, cx, cy), u);
    lemma_fade_spec_monotone(
        dist_um_spec(pix_d2(p1x, p1y, cx, cy), u),
        dist_um_spec(pix_d2(p2x, p2y, cx, cy), u),
        f,
    );
}

/// Two correct negative-form samples at one pixel are equal: the stage
/// is deterministic.
pub proof fn lemma_neg_sample_unique(
    g: &Grid,
    px: int,
    py: int,
    f: int,
    u: int,
    s1: int,
    s2: int,
)
    requires
        neg_sample_ok(g, px, py, f, u, s1),
        neg_sample_ok(g, px, py, f, u, s2),
    ensures
        s1 == s2,
{
    if s1 != s2 {
        if s1 == MAX_SAMPLE as int {
            let (wx, wy) = choose|qx: int, qy: int|
                #[trigger] is_mark(g, qx, qy) && s2 == fade_spec(
                    dist_um_spec(pix_d2(px, py, qx, qy), u),
                    f,
                );
            assert(s1 <= fade_spec(dist_um_spec(pix_d2(px, py, wx, wy), u), f));
        } else if s2 == MAX_SAMPLE as int {
            let (wx, wy) = choose|qx: int, qy: int|
                #[trigger] is_mark(g, qx, qy) && s1 == fade_spec(
                    dist_um_spec(pix_d2(px, py, qx, qy), u),
                    f,
                );
            assert(s2 <= fade_spec(dist_um_spec(pix_d2(px, py, wx, wy), u), f));
        } else {
            let (ax, ay) = choose|qx: int, qy: int|
                #[trigger] is_mark(g, qx, qy) && s1 == fade_spec(
                    dist_um_spec(pix_d2(px, py, qx, qy), u),
                    f,
                );
            let (bx, by) = choose|qx: int, qy: int|
                #[trigger] is_mark(g, qx, qy) && s2 == fade_spec(
                    dist_um_spec(pix_d2(px, py, qx, qy), u),
                    f,
                );
            assert(s1 <= fade_spec(dist_um_spec(pix_d2(px, py, bx, by), u), f));
            assert(s2 <= fade_spec(dist_um_spec(pix_d2(px, py, ax, ay), u), f));
        }
    }
}

/// Two runs of the distance-field stage on one input agree everywhere:
/// the contract pins every sample, so the pipeline is deterministic.
pub proof fn lemma_negative_form_deterministic(input: &Grid, a: &Grid, b: &Grid, f: int, u: int)
    requires
        a.spec_width() == input.spec_width(),
        a.spec_height() == input.spec_height(),
        b.spec_width() == input.spec_width(),
        b.spec_height() == input.spec_height(),
        forall|x: int, y: int|
            0 <= x < input.spec_width() && 0 <= y < input.spec_height() ==> neg_sample_ok(
                input,
                input.spec_width() - 1 - x,
                y,
                f,
                u,
                #[trigger] a.at(x, y) as int,
            ),
        forall|x: int, y: int|
            0 <= x < input.spec_width() && 0 <= y < input.spec_height() ==> neg_sample_ok(
                input,
                input.spec_width() - 1 - x,
                y,
                f,
                u,
                #[trigger] b.at(x, y) as int,
            ),
    ensures
        forall|x: int, y: int|
            0 <= x < input.spec_width() && 0 <= y < input.spec_height() ==> #[trigger] a.at(x, y)
                == b.at(x, y),
{
    assert forall|x: int, y: int|
        0 <= x < input.spec_width() && 0 <= y < input.spec_height() implies #[trigger] a.at(x, y)
        == b.at(x, y) by {
        lemma_neg_sample_unique(
            input,
            input.spec_width() - 1 - x,
            y,
            f,
            u,
            a.at(x, y) as int,
            b.at(x, y) as int,
        );
    }
}

} // verus!
