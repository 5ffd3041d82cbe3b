//! The offset-synthesis stage: the positive form.
//!
//! For each output pixel, scan the neighbor offsets within the sheet
//! thickness radius in ascending distance order. Each offset reads the
//! negative form (mirrored horizontally) and demands a clearance height:
//! the negative height there plus the missing leg of a right triangle
//! whose hypotenuse is the sheet thickness and whose known leg is the
//! planar distance. The pixel's height is the maximum demand less the
//! sheet thickness; it always lands in `[0, depth]`, so the stage is
//! total. Because the offsets come in ascending distance order the
//! clearance leg only shrinks, which justifies an early exit once no
//! later offset can raise the maximum.

use vstd::prelude::*;
use vstd::arithmetic::div_mod::lemma_div_is_ordered;
use vstd::arithmetic::div_mod::lemma_div_multiples_vanish;
use vstd::arithmetic::div_mod::lemma_fundamental_div_mod;
use vstd::arithmetic::div_mod::lemma_mod_bound;
use vstd::arithmetic::mul::lemma_mul_inequality;
use vstd::arithmetic::mul::lemma_mul_nonnegative;
use crate::fade::MAX_SAMPLE;
use crate::grid::Grid;
use crate::math::isqrt;
use crate::math::lemma_sqrt_floor_monotone;
use crate::math::lemma_sqrt_floor_of_square;
use crate::math::sqrt_floor;
use crate::neighbors::Coordinate;
use crate::neighbors::Neighbors;
use crate::neighbors::entry_before;
use crate::neighbors::offset_d2;

verus! {

/// An offset `(dx, dy)` takes part in the scan at output pixel
/// `(px, py)`: it lies within the sheet-thickness disk and its mirrored
/// read coordinate lies on the negative form.
pub open spec fn valid_offset(
    neg: &Grid,
    px: int,
    py: int,
    t: int,
    u: int,
    dx: int,
    dy: int,
) -> bool {
    &&& (dx * dx + dy * dy) * (u * u) <= t * t
    &&& 0 <= neg.spec_width() - 1 - (px + dx) < neg.spec_width()
    &&& 0 <= py + dy < neg.spec_height()
}

/// The height demanded by offset `(dx, dy)`: the negative-form height
/// at the mirrored read coordinate plus the right-triangle clearance
/// `floor(sqrt(t^2 - d2 u^2))`, all in micrometres.
pub open spec fn offset_demand(
    neg: &Grid,
    px: int,
    py: int,
    depth: int,
    t: int,
    u: int,
    dx: int,
    dy: int,
) -> int {
    neg.at(neg.spec_width() - 1 - (px + dx), py + dy) * depth / (MAX_SAMPLE as int) + sqrt_floor(
        (t * t - (dx * dx + dy * dy) * (u * u)) as nat,
    ) as int
}

/// What a correct raw height `z` at output pixel `(px, py)` is: the
/// demand of some participating offset, and at least the demand of every
/// one. This pins `z` down as the maximum demand; the zero offset always
/// participates, so the maximum exists.
pub open spec fn pos_z_ok(
    neg: &Grid,
    px: int,
    py: int,
    depth: int,
    t: int,
    u: int,
    z: int,
) -> bool {
    &&& exists|dx: int, dy: int|
        #[trigger] valid_offset(neg, px, py, t, u, dx, dy) && z == offset_demand(
            neg,
            px,
            py,
            depth,
            t,
            u,
            dx,
            dy,
        )
    &&& forall|dx: int, dy: int|
        #[trigger] valid_offset(neg, px, py, t, u, dx, dy) ==> offset_demand(
            neg,
            px,
            py,
            depth,
            t,
            u,
            dx,
            dy,
        ) <= z
}

/// The raw height at `(px, py)`: the unique value the scan may return.
pub open spec fn pos_z(neg: &Grid, px: int, py: int, depth: int, t: int, u: int) -> int {
    choose|z: int| pos_z_ok(neg, px, py, depth, t, u, z)
}

/// Output pixel `(i, j)` is finished: the raw height spec holds of
/// `pos_z` there and the stored sample encodes it, full white at
/// height 0.
pub open spec fn pixel_done(
    neg: &Grid,
    out: &Grid,
    i: int,
    j: int,
    depth: int,
    t: int,
    u: int,
) -> bool {
    &&& pos_z_ok(neg, i, j, depth, t, u, pos_z(neg, i, j, depth, t, u))
    &&& out.at(i, j) as int == MAX_SAMPLE as int - (pos_z(neg, i, j, depth, t, u) - t)
        * MAX_SAMPLE as int / depth
}

/// Two correct raw heights are equal: the scan is deterministic.
pub proof fn lemma_pos_z_unique(
    neg: &Grid,
    px: int,
    py: int,
    depth: int,
    t: int,
    u: int,
    z1: int,
    z2: int,
)
    requires
        pos_z_ok(neg, px, py, depth, t, u, z1),
        pos_z_ok(neg, px, py, depth, t, u, z2),
    ensures
        z1 == z2,
{
    let (ax, ay) = choose|dx: int, dy: int|
        #[trigger] valid_offset(neg, px, py, t, u, dx, dy) && z1 == offset_demand(
            neg,
            px,
            py,
            depth,
            t,
            u,
            dx,
            dy,
        );
    let (bx, by) = choose|dx: int, dy: int|
        #[trigger] valid_offset(neg, px, py, t, u, dx, dy) && z2 == offset_demand(
            neg,
            px,
            py,
            depth,
            t,
            u,
            dx,
            dy,
        );
    assert(offset_demand(neg, px, py, depth, t, u, ax, ay) <= z2);
    assert(offset_demand(neg, px, py, depth, t, u, bx, by) <= z1);
}

/// A scaled-down sample stays within the depth.
proof fn lemma_scaled_height_bounds(s: int, depth: int)
    requires
        0 <= s <= MAX_SAMPLE as int,
        1 <= depth,
    ensures
        0 <= s * depth / (MAX_SAMPLE as int) <= depth,
{
    lemma_mul_nonnegative(s, depth);
    lemma_mul_inequality(s, MAX_SAMPLE as int, depth);
    lemma_div_is_ordered(s * depth, MAX_SAMPLE as int * depth, MAX_SAMPLE as int);
    lemma_div_multiples_vanish(depth, MAX_SAMPLE as int);
}

/// The clearance leg never exceeds the hypotenuse.
proof fn lemma_clearance_le_t(d2u2: int, t: int)
    requires
        0 <= d2u2 <= t * t,
        0 <= t,
    ensures
        sqrt_floor((t * t - d2u2) as nat) <= t,
{
    lemma_sqrt_floor_monotone((t * t - d2u2) as nat, (t * t) as nat);
    lemma_sqrt_floor_of_square(t as nat);
}

/// Every demand lies between 0 and `depth + t`.
proof fn lemma_demand_bounds(
    neg: &Grid,
    px: int,
    py: int,
    depth: int,
    t: int,
    u: int,
    dx: int,
    dy: int,
)
    requires
        valid_offset(neg, px, py, t, u, dx, dy),
        1 <= depth,
        0 <= t,
        1 <= u,
    ensures
        0 <= offset_demand(neg, px, py, depth, t, u, dx, dy) <= depth + t,
{
    let s = neg.at(neg.spec_width() - 1 - (px + dx), py + dy) as int;
    lemma_scaled_height_bounds(s, depth);
    assert(dx * dx + dy * dy >= 0) by (nonlinear_arith);
    lemma_mul_nonnegative(dx * dx + dy * dy, u * u);
    lemma_clearance_le_t((dx * dx + dy * dy) * (u * u), t);
}

/// The raw height always lands between the sheet thickness and the
/// punch depth plus the sheet thickness: after the thickness is
/// subtracted, every positive-form height lies in `[0, depth]`. The
/// stage can never violate its geometric invariant.
pub proof fn lemma_height_within_depth(
    neg: &Grid,
    px: int,
    py: int,
    depth: int,
    t: int,
    u: int,
    z: int,
)
    requires
        neg.wf(),
        0 <= px < neg.spec_width(),
        0 <= py < neg.spec_height(),
        pos_z_ok(neg, px, py, depth, t, u, z),
        1 <= depth,
        1 <= t,
        1 <= u,
    ensures
        t <= z <= depth + t,
{
    assert(0int * (u * u) == 0) by (nonlinear_arith);
    lemma_mul_nonnegative(t, t);
    assert(valid_offset(neg, px, py, t, u, 0, 0));
    lemma_sqrt_floor_of_square(t as nat);
    lemma_scaled_height_bounds(neg.at(neg.spec_width() - 1 - px, py) as int, depth);
    assert(offset_demand(neg, px, py, depth, t, u, 0, 0) >= t);
    let (ax, ay) = choose|dx: int, dy: int|
        #[trigger] valid_offset(neg, px, py, t, u, dx, dy) && z == offset_demand(
            neg,
            px,
            py,
            depth,
            t,
            u,
            dx,
            dy,
        );
    lemma_demand_bounds(neg, px, py, depth, t, u, ax, ay);
}

/// Membership in the distance table is membership in the disk: for
/// `q == t^2 / u^2`, `d2 <= q` exactly when `d2 u^2 <= t^2`.
proof fn lemma_disk_iff_table(d2: int, t2: int, u2: int, q: int)
    requires
        0 <= d2,
        0 <= t2,
        1 <= u2,
        q == t2 / u2,
    ensures
        d2 <= q <==> d2 * u2 <= t2,
{
    lemma_fundamental_div_mod(t2, u2);
    lemma_mod_bound(t2, u2);
    if d2 <= q {
        lemma_mul_inequality(d2, q, u2);
    }
    if d2 * u2 <= t2 {
        if d2 > q {
            lemma_mul_inequality(q + 1, d2, u2);
            assert((q + 1) * u2 == q * u2 + u2) by (nonlinear_arith);
            assert(u2 * q == q * u2) by (nonlinear_arith);
            assert(false);
        }
    }
}

/// Demands shrink as the squared distance grows, once the negative
/// height is dropped: the clearance leg is anti-monotone.
proof fn lemma_clearance_anti_monotone(d2a: int, d2b: int, t: int, u: int)
    requires
        0 <= d2a <= d2b,
        0 <= t,
        1 <= u,
        d2b * (u * u) <= t * t,
    ensures
        sqrt_floor((t * t - d2b * (u * u)) as nat) <= sqrt_floor((t * t - d2a * (u * u)) as nat),
{
    lemma_mul_inequality(d2a, d2b, u * u);
    lemma_mul_nonnegative(d2a, u * u);
    lemma_sqrt_floor_monotone((t * t - d2b * (u * u)) as nat, (t * t - d2a * (u * u)) as nat);
}

/// The positive form: for each pixel the maximum clearance demand of
/// the sheet-thickness neighbor scan, less the sheet thickness, mapped
/// linearly onto the sample range with full white at height 0.
pub fn compute_positive_form(
    neg: &Grid,
    depth_um: u32,
    thickness_um: u32,
    um_per_px: u32,
) -> (out: Grid)
    requires
        neg.wf(),
        depth_um >= 1,
        thickness_um >= 1,
        um_per_px >= 1,
        thickness_um as int <= um_per_px as int * 0x7fff_ffff,
    ensures
        out.wf(),
        out.spec_width() == neg.spec_width(),
        out.spec_height() == neg.spec_height(),
        forall|x: int, y: int|
            0 <= x < neg.spec_width() && 0 <= y < neg.spec_height() ==> #[trigger] pixel_done(
                neg,
                &out,
                x,
                y,
                depth_um as int,
                thickness_um as int,
                um_per_px as int,
            ),
{
    proof {
        neg.lemma_wf_bounds();
    }
    let w = neg.width();
    let h = neg.height();
    proof {
        assert(0 <= thickness_um as u64 * thickness_um as u64 <= 0xffff_fffe_0000_0001)
            by (nonlinear_arith)
            requires
                thickness_um as u64 <= 0xffff_ffff,
        ;
        assert(1 <= um_per_px as u64 * um_per_px as u64 <= 0xffff_fffe_0000_0001)
            by (nonlinear_arith)
            requires
                1 <= um_per_px as u64 <= 0xffff_ffff,
        ;
    }
    let t2: u64 = thickness_um as u64 * thickness_um as u64;
    let u2: u64 = um_per_px as u64 * um_per_px as u64;
    let r2: u64 = t2 / u2;
    proof {
        lemma_mul_inequality(
            thickness_um as int,
            um_per_px as int * 0x7fff_ffff,
            thickness_um as int,
        );
        assert((um_per_px as int * 0x7fff_ffff) * (thickness_um as int) <= (um_per_px as int
            * 0x7fff_ffff) * (um_per_px as int * 0x7fff_ffff)) by (nonlinear_arith)
            requires
                1 <= thickness_um as int <= um_per_px as int * 0x7fff_ffff,
        ;
        assert((um_per_px as int * 0x7fff_ffff) * (um_per_px as int * 0x7fff_ffff) == (
        um_per_px as int * um_per_px as int) * (0x7fff_ffffint * 0x7fff_ffffint))
            by (nonlinear_arith);
        lemma_div_is_ordered(
            t2 as int,
            u2 as int * (0x7fff_ffffint * 0x7fff_ffffint),
            u2 as int,
        );
        lemma_div_multiples_vanish(0x7fff_ffffint * 0x7fff_ffffint, u2 as int);
        assert(r2 <= 0x3fff_ffff_0000_0001);
    }
    let table = Neighbors::new(r2);
    let mut out = Grid::new(w, h);
    let ghost depth = depth_um as int;
    let ghost t = thickness_um as int;
    let ghost u = um_per_px as int;
    let mut y: usize = 0;
    while y < h
        invariant
            neg.wf(),
            w == neg.spec_width(),
            h == neg.spec_height(),
            w <= 0x7fff_ffff,
            h <= 0x7fff_ffff,
            depth == depth_um as int,
            t == thickness_um as int,
            u == um_per_px as int,
            depth_um >= 1,
            thickness_um >= 1,
            um_per_px >= 1,
            t2 == t * t,
            u2 == u * u,
            r2 == t2 as int / u2 as int,
            table.is_table(r2 as int),
            table.spec_len() >= 1,
            out.wf(),
            out.spec_width() == w,
            out.spec_height() == h,
            y <= h,
            forall|i: int, j: int|
                0 <= i < w as int && 0 <= j < y as int ==> #[trigger] pixel_done(
                    neg,
                    &out,
                    i,
                    j,
                    depth,
                    t,
                    u,
                ),
        decreases h - y,
    {
        let mut x: usize = 0;
        while x < w
            invariant
                neg.wf(),
                w == neg.spec_width(),
                h == neg.spec_height(),
                w <= 0x7fff_ffff,
                h <= 0x7fff_ffff,
                depth == depth_um as int,
                t == thickness_um as int,
                u == um_per_px as int,
                depth_um >= 1,
                thickness_um >= 1,
                um_per_px >= 1,
                t2 == t * t,
                u2 == u * u,
                r2 == t2 as int / u2 as int,
                table.is_table(r2 as int),
                table.spec_len() >= 1,
                out.wf(),
                out.spec_width() == w,
                out.spec_height() == h,
                y < h,
                x <= w,
                forall|i: int, j: int|
                    0 <= i < w as int && 0 <= j < y as int ==> #[trigger] pixel_done(
                        neg,
                        &out,
                        i,
                        j,
                        depth,
                        t,
                        u,
                    ),
                forall|i: int|
                    0 <= i < x as int ==> #[trigger] pixel_done(
                        neg,
                        &out,
                        i,
                        y as int,
                        depth,
                        t,
                        u,
                    ),
            decreases w - x,
        {
            let zval = scan_pixel(neg, &table, x, y, depth_um, thickness_um, um_per_px, r2);
            let hz: u64 = zval - thickness_um as u64;
            proof {
                lemma_mul_inequality(hz as int, depth, MAX_SAMPLE as int);
                assert(depth * MAX_SAMPLE as int == MAX_SAMPLE as int * depth)
                    by (nonlinear_arith);
                lemma_div_is_ordered(
                    hz as int * MAX_SAMPLE as int,
                    MAX_SAMPLE as int * depth,
                    depth,
                );
                lemma_div_multiples_vanish(MAX_SAMPLE as int, depth);
                lemma_mul_nonnegative(hz as int, MAX_SAMPLE as int);
            }
            let scaled: u64 = hz * MAX_SAMPLE as u64 / depth_um as u64;
            let sample: u16 = MAX_SAMPLE - scaled as u16;
            proof {
                assert(pos_z_ok(neg, x as int, y as int, depth, t, u, zval as int));
                let zspec = pos_z(neg, x as int, y as int, depth, t, u);
                assert(pos_z_ok(neg, x as int, y as int, depth, t, u, zspec));
                lemma_pos_z_unique(neg, x as int, y as int, depth, t, u, zspec, zval as int);
            }
            let ghost prev = out;
            out.set(x, y, sample);
            proof {
                assert forall|i: int, j: int|
                    0 <= i < w as int && 0 <= j < y as int implies #[trigger] pixel_done(
                    neg,
                    &out,
                    i,
                    j,
                    depth,
                    t,
                    u,
                ) by {
                    assert(pixel_done(neg, &prev, i, j, depth, t, u));
                    assert(out.at(i, j) == prev.at(i, j));
                }
                assert forall|i: int| 0 <= i < x as int + 1 implies #[trigger] pixel_done(
                    neg,
                    &out,
                    i,
                    y as int,
                    depth,
                    t,
                    u,
                ) by {
                    if i < x as int {
                        assert(pixel_done(neg, &prev, i, y as int, depth, t, u));
                        assert(out.at(i, y as int) == prev.at(i, y as int));
                    } else {
                        assert(out.at(x as int, y as int) == sample);
                    }
                }
            }
            x = x + 1;
        }
        y = y + 1;
    }
    out
}

/// Scan one output pixel: the maximum clearance demand over the
/// neighbor table, leaving early once no later entry can raise it.
fn scan_pixel(
    neg: &Grid,
    table: &Neighbors,
    x: usize,
    y: usize,
    depth_um: u32,
    thickness_um: u32,
    um_per_px: u32,
    r2: u64,
) -> (z: u64)
    requires
        neg.wf(),
        x < neg.spec_width(),
        y < neg.spec_height(),
        depth_um >= 1,
        thickness_um >= 1,
        um_per_px >= 1,
        r2 == (thickness_um as int * thickness_um as int) / (um_per_px as int * um_per_px as int),
        table.is_table(r2 as int),
        table.spec_len() >= 1,
    ensures
        pos_z_ok(
            neg,
            x as int,
            y as int,
            depth_um as int,
            thickness_um as int,
            um_per_px as int,
            z as int,
        ),
        thickness_um as int <= z as int <= depth_um as int + thickness_um as int,
{
    proof {
        neg.lemma_wf_bounds();
    }
    let ghost depth = depth_um as int;
    let ghost t = thickness_um as int;
    let ghost u = um_per_px as int;
    let w = neg.width();
    let h = neg.height();
    proof {
        assert(0 <= thickness_um as u64 * thickness_um as u64 <= 0xffff_fffe_0000_0001)
            by (nonlinear_arith)
            requires
                thickness_um as u64 <= 0xffff_ffff,
        ;
        assert(1 <= um_per_px as u64 * um_per_px as u64 <= 0xffff_fffe_0000_0001)
            by (nonlinear_arith)
            requires
                1 <= um_per_px as u64 <= 0xffff_ffff,
        ;
    }
    let t2: u64 = thickness_um as u64 * thickness_um as u64;
    let u2: u64 = um_per_px as u64 * um_per_px as u64;
    let n = table.len();
    let mut z: u64 = 0;
    let mut i: usize = 0;
    while i < n
        invariant_except_break
            neg.wf(),
            w == neg.spec_width(),
            h == neg.spec_height(),
            w <= 0x7fff_ffff,
            h <= 0x7fff_ffff,
            x < w,
            y < h,
            depth == depth_um as int,
            t == thickness_um as int,
            u == um_per_px as int,
            depth_um >= 1,
            thickness_um >= 1,
            um_per_px >= 1,
            t2 == t * t,
            u2 == u * u,
            1 <= u2,
            r2 == t2 as int / u2 as int,
            table.is_table(r2 as int),
            n == table.spec_len(),
            i <= n,
            z as int <= depth + t,
            forall|j: int|
                0 <= j < i as int ==> table_demand_le(
                    neg,
                    table,
                    j,
                    x as int,
                    y as int,
                    depth,
                    t,
                    u,
                    z as int,
                ),
            z == 0 || exists|dx: int, dy: int|
                #[trigger] valid_offset(neg, x as int, y as int, t, u, dx, dy) && z as int
                    == offset_demand(neg, x as int, y as int, depth, t, u, dx, dy),
        ensures
            z as int <= depth + t,
            forall|j: int|
                0 <= j < table.spec_len() ==> table_demand_le(
                    neg,
                    table,
                    j,
                    x as int,
                    y as int,
                    depth,
                    t,
                    u,
                    z as int,
                ),
            z == 0 || exists|dx: int, dy: int|
                #[trigger] valid_offset(neg, x as int, y as int, t, u, dx, dy) && z as int
                    == offset_demand(neg, x as int, y as int, depth, t, u, dx, dy),
        decreases n - i,
    {
        let (c, d2) = table.get(i);
        proof {
            lemma_disk_iff_table(d2 as int, t2 as int, u2 as int, r2 as int);
            lemma_mul_nonnegative(d2 as int, u2 as int);
        }
        let d2u2: u64 = {
            proof {
                lemma_mul_inequality(d2 as int, r2 as int, u2 as int);
            }
            assert(d2 as int * u2 as int <= t2 as int);
            d2 * u2
        };
        let diff: u64 = isqrt((t2 - d2u2) as u128);
        proof {
            lemma_clearance_le_t(d2u2 as int, t);
        }
        let nxs: i64 = w as i64 - 1 - (x as i64 + c.x as i64);
        let nys: i64 = y as i64 + c.y as i64;
        if 0 <= nxs && nxs < w as i64 && 0 <= nys && nys < h as i64 {
            let nx = nxs as usize;
            let ny = nys as usize;
            let s: u16 = neg.get(nx, ny);
            proof {
                lemma_scaled_height_bounds(s as int, depth);
            }
            let negz: u64 = s as u64 * depth_um as u64 / (MAX_SAMPLE as u64);
            let demand: u64 = negz + diff;
            proof {
                assert(valid_offset(neg, x as int, y as int, t, u, c.x as int, c.y as int)) by {
                    assert(offset_d2(c) == d2 as int);
                }
                assert(demand as int == offset_demand(
                    neg,
                    x as int,
                    y as int,
                    depth,
                    t,
                    u,
                    c.x as int,
                    c.y as int,
                ));
            }
            let ghost zprev = z;
            if demand > z {
                z = demand;
            }
            proof {
                assert(table_demand_le(neg, table, i as int, x as int, y as int, depth, t, u, z as int));
                assert forall|j: int| 0 <= j < i as int + 1 implies table_demand_le(
                    neg,
                    table,
                    j,
                    x as int,
                    y as int,
                    depth,
                    t,
                    u,
                    z as int,
                ) by {
                    if j < i as int {
                        assert(table_demand_le(
                            neg,
                            table,
                            j,
                            x as int,
                            y as int,
                            depth,
                            t,
                            u,
                            zprev as int,
                        ));
                    }
                }
            }
            if z > depth_um as u64 + diff {
                proof {
                    lemma_early_exit(
                        neg,
                        table,
                        i as int,
                        x as int,
                        y as int,
                        depth,
                        t,
                        u,
                        r2 as int,
                        z as int,
                    );
                }
                break;
            }
        } else {
            proof {
                assert forall|j: int| 0 <= j < i as int + 1 implies table_demand_le(
                    neg,
                    table,
                    j,
                    x as int,
                    y as int,
                    depth,
                    t,
                    u,
                    z as int,
                ) by {
                    if j == i as int {
                        assert(!valid_offset(
                            neg,
                            x as int,
                            y as int,
                            t,
                            u,
                            c.x as int,
                            c.y as int,
                        ));
                        assert(offset_d2(c) == d2 as int);
                    } else {
                        assert(table_demand_le(
                            neg,
                            table,
                            j,
                            x as int,
                            y as int,
                            depth,
                            t,
                            u,
                            z as int,
                        ));
                    }
                }
            }
        }
        i = i + 1;
    }
    proof {
        let cz = Coordinate { x: 0, y: 0 };
        assert(offset_d2(cz) == 0);
        let k = choose|k: int| 0 <= k < table.spec_len() && (#[trigger] table.entry(k)).0 == cz;
        assert(table_demand_le(neg, table, k, x as int, y as int, depth, t, u, z as int));
        assert(0int * (u * u) == 0) by (nonlinear_arith);
        lemma_mul_nonnegative(t, t);
        assert(valid_offset(neg, x as int, y as int, t, u, 0, 0));
        lemma_sqrt_floor_of_square(t as nat);
        lemma_scaled_height_bounds(neg.at(w as int - 1 - x as int, y as int) as int, depth);
        assert(offset_demand(neg, x as int, y as int, depth, t, u, 0, 0) >= t);
        assert(z as int >= t);
        assert forall|dx: int, dy: int|
            #[trigger] valid_offset(neg, x as int, y as int, t, u, dx, dy) implies offset_demand(
            neg,
            x as int,
            y as int,
            depth,
            t,
            u,
            dx,
            dy,
        ) <= z as int by {
            let oc = Coordinate { x: dx as i32, y: dy as i32 };
            assert(dx * dx >= 0 && dy * dy >= 0) by (nonlinear_arith);
            lemma_offset_fits(neg, x as int, y as int, t, u, dx, dy);
            assert(offset_d2(oc) == dx * dx + dy * dy);
            lemma_disk_iff_table(dx * dx + dy * dy, t * t, u * u, r2 as int);
            let j = choose|j: int| 0 <= j < table.spec_len() && (#[trigger] table.entry(j)).0 == oc;
            assert(table_demand_le(neg, table, j, x as int, y as int, depth, t, u, z as int));
        }
    }
    z
}

/// The demand of table entry `j`, when its offset participates, is at
/// most `z`.
pub open spec fn table_demand_le(
    neg: &Grid,
    table: &Neighbors,
    j: int,
    px: int,
    py: int,
    depth: int,
    t: int,
    u: int,
    z: int,
) -> bool {
    valid_offset(
        neg,
        px,
        py,
        t,
        u,
        table.entry(j).0.x as int,
        table.entry(j).0.y as int,
    ) ==> offset_demand(
        neg,
        px,
        py,
        depth,
        t,
        u,
        table.entry(j).0.x as int,
        table.entry(j).0.y as int,
    ) <= z
}

/// A participating offset has components that fit the table's
/// coordinate type.
proof fn lemma_offset_fits(neg: &Grid, px: int, py: int, t: int, u: int, dx: int, dy: int)
    requires
        valid_offset(neg, px, py, t, u, dx, dy),
        1 <= u,
        0 <= t,
        neg.spec_width() <= 0x7fff_ffff,
        neg.spec_height() <= 0x7fff_ffff,
        0 <= px < neg.spec_width(),
        0 <= py < neg.spec_height(),
    ensures
        -0x7fff_ffff <= dx <= 0x7fff_ffff,
        -0x7fff_ffff <= dy <= 0x7fff_ffff,
{
}

/// Once the running maximum tops `depth + clearance` of the entry at
/// hand, no later entry can raise it: clearances only shrink with the
/// distance, and every entry demands at most `depth` plus its clearance.
proof fn lemma_early_exit(
    neg: &Grid,
    table: &Neighbors,
    i: int,
    px: int,
    py: int,
    depth: int,
    t: int,
    u: int,
    r2: int,
    z: int,
)
    requires
        table.is_table(r2),
        0 <= i < table.spec_len(),
        r2 == (t * t) / (u * u),
        1 <= depth,
        1 <= t,
        1 <= u,
        z > depth + sqrt_floor(
            (t * t - (table.entry(i).1 as int) * (u * u)) as nat,
        ) as int,
        table.entry(i).1 as int * (u * u) <= t * t,
        forall|j: int| 0 <= j < i + 1 ==> table_demand_le(neg, table, j, px, py, depth, t, u, z),
    ensures
        forall|j: int| 0 <= j < table.spec_len() ==> table_demand_le(neg, table, j, px, py, depth, t, u, z),
{
    let d2i = table.entry(i).1 as int;
    assert forall|j: int| 0 <= j < table.spec_len() implies table_demand_le(
        neg,
        table,
        j,
        px,
        py,
        depth,
        t,
        u,
        z,
    ) by {
        if j > i {
            let cj = table.entry(j).0;
            let dx = cj.x as int;
            let dy = cj.y as int;
            if valid_offset(neg, px, py, t, u, dx, dy) {
                assert(entry_before(table.entry(i).0, cj));
                assert(table.entry(j).1 as int == offset_d2(cj));
                assert(offset_d2(table.entry(i).0) == d2i);
                let d2j = offset_d2(cj);
                assert(d2i <= d2j);
                lemma_clearance_anti_monotone(d2i, d2j, t, u);
                let sj = neg.at(neg.spec_width() - 1 - (px + dx), py + dy) as int;
                lemma_scaled_height_bounds(sj, depth);
            }
        }
    }
}

/// For a negative form with no depression anywhere (every sample 0) the
/// raw height is exactly the sheet thickness, so the positive form sits
/// at height 0 everywhere.
pub proof fn lemma_flat_negative_form(
    neg: &Grid,
    px: int,
    py: int,
    depth: int,
    t: int,
    u: int,
    z: int,
)
    requires
        neg.wf(),
        0 <= px < neg.spec_width(),
        0 <= py < neg.spec_height(),
        forall|i: int, j: int|
            0 <= i < neg.spec_width() && 0 <= j < neg.spec_height() ==> #[trigger] neg.at(i, j)
                == 0,
        pos_z_ok(neg, px, py, depth, t, u, z),
        1 <= depth,
        1 <= t,
        1 <= u,
    ensures
        z == t,
{
    assert forall|dx: int, dy: int|
        #[trigger] valid_offset(neg, px, py, t, u, dx, dy) implies offset_demand(
        neg,
        px,
        py,
        depth,
        t,
        u,
        dx,
        dy,
    ) <= t by {
        assert(neg.at(neg.spec_width() - 1 - (px + dx), py + dy) == 0);
        assert(0int * depth == 0) by (nonlinear_arith);
        assert(dx * dx + dy * dy >= 0) by (nonlinear_arith);
        lemma_mul_nonnegative(dx * dx + dy * dy, u * u);
        lemma_clearance_le_t((dx * dx + dy * dy) * (u * u), t);
    }
    let (ax, ay) = choose|dx: int, dy: int|
        #[trigger] valid_offset(neg, px, py, t, u, dx, dy) && z == offset_demand(
            neg,
            px,
            py,
            depth,
            t,
            u,
            dx,
            dy,
        );
    assert(z <= t);
    assert(0int * (u * u) == 0) by (nonlinear_arith);
    lemma_mul_nonnegative(t, t);
    assert(valid_offset(neg, px, py, t, u, 0, 0));
    lemma_sqrt_floor_of_square(t as nat);
    assert(neg.at(neg.spec_width() - 1 - px, py) == 0);
    assert(0int * depth == 0) by (nonlinear_arith);
    assert(offset_demand(neg, px, py, depth, t, u, 0, 0) == t);
}

/// For a negative form holding a single full-depth pixel at `(cx, cy)`
/// amid zeros, the raw height follows the right-triangle falloff around
/// the pixel that reads it: `depth` plus the clearance of the offset
/// that reaches `(cx, cy)` where that offset is within the sheet disk,
/// and the bare thickness everywhere else.
pub proof fn lemma_single_peak_falloff(
    neg: &Grid,
    cx: int,
    cy: int,
    px: int,
    py: int,
    depth: int,
    t: int,
    u: int,
    z: int,
)
    requires
        neg.wf(),
        0 <= px < neg.spec_width(),
        0 <= py < neg.spec_height(),
        0 <= cx < neg.spec_width(),
        0 <= cy < neg.spec_height(),
        neg.at(cx, cy) == MAX_SAMPLE,
        forall|i: int, j: int|
            0 <= i < neg.spec_width() && 0 <= j < neg.spec_height() && !(i == cx && j == cy)
                ==> #[trigger] neg.at(i, j) == 0,
        pos_z_ok(neg, px, py, depth, t, u, z),
        1 <= depth,
        1 <= t,
        1 <= u,
    ensures
        ({
            let dxc = neg.spec_width() - 1 - px - cx;
            let dyc = cy - py;
            if (dxc * dxc + dyc * dyc) * (u * u) <= t * t {
                z == if depth + sqrt_floor((t * t - (dxc * dxc + dyc * dyc) * (u * u)) as nat) >= t {
                    depth + sqrt_floor((t * t - (dxc * dxc + dyc * dyc) * (u * u)) as nat) as int
                } else {
                    t
                }
            } else {
                z == t
            }
        }),
{
    let dxc = neg.spec_width() - 1 - px - cx;
    let dyc = cy - py;
    lemma_div_multiples_vanish(depth, MAX_SAMPLE as int);
    assert(MAX_SAMPLE as int * depth == depth * MAX_SAMPLE as int) by (nonlinear_arith);
    assert forall|dx: int, dy: int|
        #[trigger] valid_offset(neg, px, py, t, u, dx, dy) && !(dx == dxc && dy == dyc)
        implies offset_demand(neg, px, py, depth, t, u, dx, dy) <= t by {
        assert(neg.at(neg.spec_width() - 1 - (px + dx), py + dy) == 0);
        assert(0int * depth == 0) by (nonlinear_arith);
        assert(dx * dx + dy * dy >= 0) by (nonlinear_arith);
        lemma_mul_nonnegative(dx * dx + dy * dy, u * u);
        lemma_clearance_le_t((dx * dx + dy * dy) * (u * u), t);
    }
    assert(0int * (u * u) == 0) by (nonlinear_arith);
    lemma_mul_nonnegative(t, t);
    assert(valid_offset(neg, px, py, t, u, 0, 0));
    lemma_sqrt_floor_of_square(t as nat);
    assert(offset_demand(neg, px, py, depth, t, u, 0, 0) >= t);
    let (ax, ay) = choose|dx: int, dy: int|
        #[trigger] valid_offset(neg, px, py, t, u, dx, dy) && z == offset_demand(
            neg,
            px,
            py,
            depth,
            t,
            u,
            dx,
            dy,
        );
    if (dxc * dxc + dyc * dyc) * (u * u) <= t * t {
        assert(valid_offset(neg, px, py, t, u, dxc, dyc));
        assert(neg.at(neg.spec_width() - 1 - (px + dxc), py + dyc) == MAX_SAMPLE);
        let clc = sqrt_floor((t * t - (dxc * dxc + dyc * dyc) * (u * u)) as nat) as int;
        assert(offset_demand(neg, px, py, depth, t, u, dxc, dyc) == depth + clc);
        assert(dxc * dxc + dyc * dyc >= 0) by (nonlinear_arith);
        lemma_mul_nonnegative(dxc * dxc + dyc * dyc, u * u);
        lemma_clearance_le_t((dxc * dxc + dyc * dyc) * (u * u), t);
        if depth + clc >= t {
            assert(z >= depth + clc);
            if !(ax == dxc && ay == dyc) {
                assert(z <= t);
            }
        } else {
            assert(z >= t);
            if ax == dxc && ay == dyc {
                assert(z == depth + clc);
                assert(false);
            }
            assert(z <= t);
        }
    } else {
        assert(z >= t);
        if ax == dxc && ay == dyc {
            assert(!valid_offset(neg, px, py, t, u, dxc, dyc));
            assert(false);
        }
        assert(z <= t);
    }
}

} // verus!
