//! Neighbor enumeration: every integer offset within a given radius,
//! paired with its squared Euclidean pixel distance, in ascending
//! distance order.
//!
//! The radius is taken as a squared-distance bound `r2`: an offset
//! `(dx, dy)` belongs to the disk exactly when `dx^2 + dy^2 <= r2`.
//! Entries are strictly ordered by squared distance, ties broken by row
//! then column, so the table of a given bound is unique.

use vstd::prelude::*;
use crate::math::lemma_sqrt_floor_monotone;
use crate::math::lemma_sqrt_floor_of_square;
use crate::math::isqrt;
use crate::math::sqrt_floor;

verus! {

/// Integer pixel offset. Positive y runs down, positive x runs right.
#[derive(Debug, Copy, Clone, Eq, PartialEq, Structural)]
pub struct Coordinate {
    pub x: i32,
    pub y: i32,
}

/// Squared Euclidean length of an offset.
pub open spec fn offset_d2(c: Coordinate) -> int {
    c.x as int * c.x as int + c.y as int * c.y as int
}

/// The strict enumeration order: ascending squared distance, ties by
/// row, then column.
pub open spec fn entry_before(a: Coordinate, b: Coordinate) -> bool {
    ||| offset_d2(a) < offset_d2(b)
    ||| (offset_d2(a) == offset_d2(b) && (a.y < b.y || (a.y == b.y && a.x < b.x)))
}

/// A position of the enumeration: about to consider squared distance
/// `d2v`, row `yy`, column `xx`. `c` lies strictly before it.
pub open spec fn pos_before(c: Coordinate, d2v: int, yy: int, xx: int) -> bool {
    ||| offset_d2(c) < d2v
    ||| (offset_d2(c) == d2v && ((c.y as int) < yy || (c.y as int == yy && (c.x as int) < xx)))
}

/// The offsets of the disk of squared radius `r2`, each with its squared
/// distance, ascending by distance.
pub struct Neighbors {
    entries: Vec<(Coordinate, u64)>,
}

impl Neighbors {
    /// The enumerated entries.
    pub closed spec fn entries_seq(&self) -> Seq<(Coordinate, u64)> {
        self.entries@
    }

    /// Number of entries.
    pub open spec fn spec_len(&self) -> int {
        self.entries_seq().len() as int
    }

    /// The entry at position `i`.
    pub open spec fn entry(&self, i: int) -> (Coordinate, u64) {
        self.entries_seq()[i]
    }

    /// The table lists each offset of the disk of squared radius `r2`
    /// exactly once, paired with its squared distance, in the strict
    /// enumeration order.
    pub open spec fn is_table(&self, r2: int) -> bool {
        &&& forall|i: int|
            0 <= i < self.spec_len() ==> offset_d2((#[trigger] self.entry(i)).0) <= r2 && self.entry(
                i,
            ).1 as int == offset_d2(self.entry(i).0)
        &&& forall|i: int, j: int|
            0 <= i < j < self.spec_len() ==> entry_before(
                (#[trigger] self.entry(i)).0,
                (#[trigger] self.entry(j)).0,
            )
        &&& forall|c: Coordinate|
            #[trigger] offset_d2(c) <= r2 ==> exists|i: int|
                0 <= i < self.spec_len() && (#[trigger] self.entry(i)).0 == c
    }

    /// Build the table for the disk of squared radius `r2`.
    ///
    /// The enumeration passes over squared distances in ascending order
    /// and scans the bounding box once per distance value, so the
    /// entries come out sorted without a separate sorting pass.
    pub fn new(r2: u64) -> (t: Neighbors)
        requires
            r2 <= 0x3fff_ffff_0000_0001,
        ensures
            t.is_table(r2 as int),
            t.spec_len() >= 1,
    {
        let radius: u64 = isqrt(r2 as u128);
        proof {
            lemma_sqrt_floor_monotone(r2 as nat, 0x3fff_ffff_0000_0001);
            lemma_sqrt_floor_of_square(0x7fff_ffff);
            assert(0x7fff_ffffu64 * 0x7fff_ffffu64 == 0x3fff_ffff_0000_0001u64);
        }
        let rr: i64 = radius as i64;
        let mut entries: Vec<(Coordinate, u64)> = Vec::new();
        proof {
            lemma_empty_start(r2 as int, rr as int);
        }
        let mut d2v: u64 = 0;
        while d2v <= r2
            invariant
                r2 <= 0x3fff_ffff_0000_0001,
                rr == sqrt_floor(r2 as nat),
                0 <= rr <= 0x7fff_ffff,
                d2v <= r2 + 1,
                partial_table(entries@, r2 as int, d2v as int, -(rr as int), -(rr as int)),
            decreases r2 - d2v + 1,
        {
            let mut yy: i64 = -rr;
            while yy <= rr
                invariant
                    rr == sqrt_floor(r2 as nat),
                    0 <= rr <= 0x7fff_ffff,
                    d2v <= r2,
                    -(rr as int) <= yy as int <= rr as int + 1,
                    partial_table(entries@, r2 as int, d2v as int, yy as int, -(rr as int)),
                decreases rr - yy + 1,
            {
                let mut xx: i64 = -rr;
                while xx <= rr
                    invariant
                        rr == sqrt_floor(r2 as nat),
                        0 <= rr <= 0x7fff_ffff,
                        d2v <= r2,
                        -(rr as int) <= yy as int <= rr as int,
                        -(rr as int) <= xx as int <= rr as int + 1,
                        partial_table(entries@, r2 as int, d2v as int, yy as int, xx as int),
                    decreases rr - xx + 1,
                {
                    proof {
                        assert(0 <= xx * xx <= 0x3fff_ffff_0000_0001) by (nonlinear_arith)
                            requires
                                -0x7fff_ffff <= xx <= 0x7fff_ffff,
                        ;
                        assert(0 <= yy * yy <= 0x3fff_ffff_0000_0001) by (nonlinear_arith)
                            requires
                                -0x7fff_ffff <= yy <= 0x7fff_ffff,
                        ;
                    }
                    let cd2: u64 = (xx * xx) as u64 + (yy * yy) as u64;
                    if cd2 == d2v {
                        let c = Coordinate { x: xx as i32, y: yy as i32 };
                        proof {
                            assert(offset_d2(c) == d2v as int);
                            lemma_push_keeps_table(
                                entries@,
                                r2 as int,
                                d2v,
                                yy as int,
                                xx as int,
                                c,
                            );
                        }
                        entries.push((c, d2v));
                    } else {
                        proof {
                            assert forall|c: Coordinate|
                                c.y as int == yy as int && c.x as int == xx as int implies #[trigger] offset_d2(
                                c,
                            ) != d2v as int by {
                                assert(offset_d2(c) == cd2 as int);
                            }
                            lemma_skip_keeps_table(
                                entries@,
                                r2 as int,
                                d2v as int,
                                yy as int,
                                xx as int,
                            );
                        }
                    }
                    xx = xx + 1;
                }
                proof {
                    lemma_row_step(entries@, r2 as int, d2v as int, yy as int, rr as int);
                }
                yy = yy + 1;
            }
            proof {
                lemma_distance_step(entries@, r2 as int, d2v as int, rr as int);
            }
            d2v = d2v + 1;
        }
        let ghost done = entries@;
        let t = Neighbors { entries };
        proof {
            assert(t.entries_seq() == done);
            assert forall|c: Coordinate| #[trigger] offset_d2(c) <= r2 as int implies exists|i: int|
                0 <= i < t.spec_len() && (#[trigger] t.entry(i)).0 == c by {
                assert(pos_before(c, d2v as int, -(rr as int), -(rr as int)));
                let i = choose|i: int| 0 <= i < done.len() && (#[trigger] done[i]).0 == c;
                assert(0 <= i < t.spec_len() && t.entry(i).0 == c);
            }
            let center = Coordinate { x: 0, y: 0 };
            assert(offset_d2(center) == 0);
            assert(exists|i: int| 0 <= i < t.spec_len() && (#[trigger] t.entry(i)).0 == center);
        }
        t
    }

    /// Number of entries in the table.
    pub fn len(&self) -> (n: usize)
        ensures
            n == self.spec_len(),
    {
        self.entries.len()
    }

    /// Read the entry at position `i`.
    pub fn get(&self, i: usize) -> (e: (Coordinate, u64))
        requires
            i < self.spec_len(),
        ensures
            e == self.entry(i as int),
    {
        (self.entries[i].0, self.entries[i].1)
    }

    /// Iterate the entries in ascending distance order.
    pub fn iter(&self) -> (it: NeighborIterator<'_>)
        ensures
            it.table() == self,
            it.pos() == 0,
    {
        NeighborIterator { table: self, index: 0 }
    }
}

/// A cursor over a neighbor table, from the nearest offset outward.
pub struct NeighborIterator<'a> {
    table: &'a Neighbors,
    index: usize,
}

impl<'a> NeighborIterator<'a> {
    /// The table iterated over.
    pub closed spec fn table(&self) -> &'a Neighbors {
        self.table
    }

    /// The position of the cursor.
    pub closed spec fn pos(&self) -> int {
        self.index as int
    }

    /// The next entry, or `None` past the end.
    pub fn next(&mut self) -> (e: Option<(Coordinate, u64)>)
        ensures
            final(self).table() == old(self).table(),
            old(self).pos() < old(self).table().spec_len() ==> e == Some(
                old(self).table().entry(old(self).pos()),
            ) && final(self).pos() == old(self).pos() + 1,
            old(self).pos() >= old(self).table().spec_len() ==> e is None && final(self).pos()
                == old(self).pos(),
    {
        if self.index < self.table.len() {
            let e = self.table.get(self.index);
            self.index = self.index + 1;
            Some(e)
        } else {
            None
        }
    }
}

/// State of the enumeration at position `(d2v, yy, xx)`: `s` holds
/// exactly the disk offsets strictly before the position, in order.
pub open spec fn partial_table(
    s: Seq<(Coordinate, u64)>,
    r2: int,
    d2v: int,
    yy: int,
    xx: int,
) -> bool {
    &&& forall|i: int|
        0 <= i < s.len() ==> offset_d2((#[trigger] s[i]).0) <= r2 && s[i].1 as int == offset_d2(
            s[i].0,
        ) && pos_before(s[i].0, d2v, yy, xx)
    &&& forall|i: int, j: int|
        0 <= i < j < s.len() ==> entry_before((#[trigger] s[i]).0, (#[trigger] s[j]).0)
    &&& forall|c: Coordinate|
        #[trigger] offset_d2(c) <= r2 && pos_before(c, d2v, yy, xx) ==> exists|i: int|
            0 <= i < s.len() && (#[trigger] s[i]).0 == c
}

/// An offset of the disk has both components within the radius.
proof fn lemma_component_bound(c: Coordinate, r2: int)
    requires
        offset_d2(c) <= r2,
        0 <= r2,
    ensures
        -(sqrt_floor(r2 as nat) as int) <= c.x as int <= sqrt_floor(r2 as nat) as int,
        -(sqrt_floor(r2 as nat) as int) <= c.y as int <= sqrt_floor(r2 as nat) as int,
{
    let x = c.x as int;
    let y = c.y as int;
    let ax: int = if x < 0 {
        -x
    } else {
        x
    };
    let ay: int = if y < 0 {
        -y
    } else {
        y
    };
    assert(ax * ax == x * x && ay * ay == y * y) by (nonlinear_arith)
        requires
            ax == x || ax == -x,
            ay == y || ay == -y,
    ;
    assert(x * x >= 0 && y * y >= 0) by (nonlinear_arith);
    lemma_sqrt_floor_of_square(ax as nat);
    lemma_sqrt_floor_of_square(ay as nat);
    lemma_sqrt_floor_monotone((ax * ax) as nat, r2 as nat);
    lemma_sqrt_floor_monotone((ay * ay) as nat, r2 as nat);
}

/// Pushing the offset at the current position keeps the enumeration
/// state, advanced one column.
proof fn lemma_push_keeps_table(
    s: Seq<(Coordinate, u64)>,
    r2: int,
    d2u: u64,
    yy: int,
    xx: int,
    c: Coordinate,
)
    requires
        partial_table(s, r2, d2u as int, yy, xx),
        offset_d2(c) == d2u as int,
        d2u as int <= r2,
        c.y as int == yy,
        c.x as int == xx,
    ensures
        partial_table(s.push((c, d2u)), r2, d2u as int, yy, xx + 1),
{
    let d2v = d2u as int;
    let s2 = s.push((c, d2u));
    assert forall|i: int, j: int| 0 <= i < j < s2.len() implies entry_before(
        (#[trigger] s2[i]).0,
        (#[trigger] s2[j]).0,
    ) by {
        if j == s.len() {
            assert(pos_before(s[i].0, d2v, yy, xx));
        }
    }
    assert forall|q: Coordinate|
        #[trigger] offset_d2(q) <= r2 && pos_before(q, d2v, yy, xx + 1) implies exists|i: int|
        0 <= i < s2.len() && (#[trigger] s2[i]).0 == q by {
        if pos_before(q, d2v, yy, xx) {
            let i = choose|i: int| 0 <= i < s.len() && (#[trigger] s[i]).0 == q;
            assert(s2[i].0 == q);
        } else {
            assert(q.x as int == xx && q.y as int == yy && offset_d2(q) == d2v);
            assert(q == c);
            assert(s2[s.len() as int].0 == q);
        }
    }
}

/// When the current position is not on the disk ring of `d2v`, the
/// state carries over to the next column unchanged.
proof fn lemma_skip_keeps_table(s: Seq<(Coordinate, u64)>, r2: int, d2v: int, yy: int, xx: int)
    requires
        partial_table(s, r2, d2v, yy, xx),
        forall|c: Coordinate| c.y as int == yy && c.x as int == xx ==> offset_d2(c) != d2v,
    ensures
        partial_table(s, r2, d2v, yy, xx + 1),
{
    assert forall|q: Coordinate|
        #[trigger] offset_d2(q) <= r2 && pos_before(q, d2v, yy, xx + 1) implies exists|i: int|
        0 <= i < s.len() && (#[trigger] s[i]).0 == q by {
        assert(pos_before(q, d2v, yy, xx));
    }
}

/// Past the last column of a row, the state carries over to the start
/// of the next row.
proof fn lemma_row_step(s: Seq<(Coordinate, u64)>, r2: int, d2v: int, yy: int, rr: int)
    requires
        partial_table(s, r2, d2v, yy, rr + 1),
        rr == sqrt_floor(r2 as nat),
        0 <= r2,
    ensures
        partial_table(s, r2, d2v, yy + 1, -rr),
{
    assert forall|i: int| 0 <= i < s.len() implies pos_before((#[trigger] s[i]).0, d2v, yy + 1, -rr)
        by {
        assert(pos_before(s[i].0, d2v, yy, rr + 1));
    }
    assert forall|q: Coordinate|
        #[trigger] offset_d2(q) <= r2 && pos_before(q, d2v, yy + 1, -rr) implies exists|i: int|
        0 <= i < s.len() && (#[trigger] s[i]).0 == q by {
        lemma_component_bound(q, r2);
        assert(pos_before(q, d2v, yy, rr + 1));
    }
}

/// Past the last row, the state carries over to the next squared
/// distance, restarting at the first row and column.
proof fn lemma_distance_step(s: Seq<(Coordinate, u64)>, r2: int, d2v: int, rr: int)
    requires
        partial_table(s, r2, d2v, rr + 1, -rr),
        rr == sqrt_floor(r2 as nat),
        0 <= r2,
    ensures
        partial_table(s, r2, d2v + 1, -rr, -rr),
{
    assert forall|i: int| 0 <= i < s.len() implies pos_before(
        (#[trigger] s[i]).0,
        d2v + 1,
        -rr,
        -rr,
    ) by {
        assert(pos_before(s[i].0, d2v, rr + 1, -rr));
    }
    assert forall|q: Coordinate|
        #[trigger] offset_d2(q) <= r2 && pos_before(q, d2v + 1, -rr, -rr) implies exists|i: int|
        0 <= i < s.len() && (#[trigger] s[i]).0 == q by {
        lemma_component_bound(q, r2);
        assert(pos_before(q, d2v, rr + 1, -rr));
    }
}

/// Before the first position nothing lies: the state starts empty.
proof fn lemma_empty_start(r2: int, rr: int)
    requires
        0 <= rr,
    ensures
        partial_table(Seq::<(Coordinate, u64)>::empty(), r2, 0, -rr, -rr),
{
    assert forall|c: Coordinate| #[trigger] offset_d2(c) <= r2 && pos_before(c, 0, -rr, -rr) implies exists|
        i: int,
    |
        0 <= i < Seq::<(Coordinate, u64)>::empty().len() && (#[trigger] Seq::<(
            Coordinate,
            u64,
        )>::empty()[i]).0 == c by {
        let x = c.x as int;
        let y = c.y as int;
        assert(x * x >= 0 && y * y >= 0) by (nonlinear_arith);
        assert(offset_d2(c) == 0);
        assert(y * y == 0 && x * x == 0);
        assert(y == 0 && x == 0) by (nonlinear_arith)
            requires
                y * y == 0 && x * x == 0,
        ;
        assert(false);
    }
}

} // verus!
