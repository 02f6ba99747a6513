//! The colour-filter grid, and the part of a frame that saw light.
//!
//! Kept in one place because the two facts it holds — which colour a photosite
//! carries, and where the light-sensitive area starts — are anchored to the
//! sensor origin, and two readers that disagreed about either would silently
//! read every photosite as the wrong colour.
use vstd::prelude::*;

use crate::frame::{CFA_MAX_CELLS, ImageLayout};

verus! {

/// A rectangle of photosites.
#[derive(Debug, Clone, Copy, PartialEq, Eq, Structural)]
pub struct Area {
    pub x: usize,
    pub y: usize,
    pub width: usize,
    pub height: usize,
}

/// The light-sensitive region a layout describes, or the whole frame when it
/// names none; `None` when the frame is empty, or when the region does not lie
/// inside the frame or is under three photosites across.
pub open spec fn active_area_of(layout: ImageLayout) -> Option<Area> {
    let width = layout.width as int;
    let height = layout.height as int;
    let (x, y, w, h) = if layout.active_width == 0 || layout.active_height == 0 {
        (0int, 0int, width, height)
    } else {
        (
            layout.active_x as int,
            layout.active_y as int,
            layout.active_width as int,
            layout.active_height as int,
        )
    };
    if width == 0 || height == 0 {
        None
    } else if x + w <= width && y + h <= height && w >= 3 && h >= 3 {
        Some(Area { x: x as usize, y: y as usize, width: w as usize, height: h as usize })
    } else {
        None
    }
}

/// The light-sensitive region, or the whole frame when the layout did not say.
///
/// `None` when the area does not fit inside the frame, rather than clamping: a
/// decoder that reports an impossible rectangle has said something wrong, and
/// silently correcting it would read past the buffer or, worse, not.
pub fn active_area(layout: &ImageLayout) -> (r: Option<Area>)
    ensures
        r == active_area_of(*layout),
{
    let width = layout.width as u64;
    let height = layout.height as u64;
    if width == 0 || height == 0 {
        return None;
    }
    let (x, y, w, h) = if layout.active_width == 0 || layout.active_height == 0 {
        (0u64, 0u64, width, height)
    } else {
        (
            layout.active_x as u64,
            layout.active_y as u64,
            layout.active_width as u64,
            layout.active_height as u64,
        )
    };
    if x + w <= width && y + h <= height && w >= 3 && h >= 3 {
        Some(Area { x: x as usize, y: y as usize, width: w as usize, height: h as usize })
    } else {
        None
    }
}

/// Where a frame saw light. A frame that names no active area (a zero active
/// width or height) is read whole, as long as it is at least three photosites
/// each way. A frame that names one is read as exactly that area when it lies
/// inside the frame and is at least three across each way. Whatever is
/// answered lies inside the frame and is at least three across each way.
pub proof fn law_active_area_is_where_light_fell(layout: ImageLayout)
    ensures
        (layout.active_width == 0 || layout.active_height == 0) && layout.width >= 3 && layout.height >= 3
            ==> active_area_of(layout) == Some(
            Area { x: 0, y: 0, width: layout.width as usize, height: layout.height as usize },
        ),
        layout.active_width > 0 && layout.active_height > 0 && layout.active_x + layout.active_width <= layout.width
            && layout.active_y + layout.active_height <= layout.height && layout.active_width >= 3
            && layout.active_height >= 3 ==> active_area_of(layout) == Some(
            Area {
                x: layout.active_x as usize,
                y: layout.active_y as usize,
                width: layout.active_width as usize,
                height: layout.active_height as usize,
            },
        ),
        active_area_of(layout) matches Some(a) ==> a.x + a.width <= layout.width && a.y + a.height <= layout.height
            && a.width >= 3 && a.height >= 3,
{
}

/// The greatest common divisor, by Euclid.
pub open spec fn gcd(a: nat, b: nat) -> nat
    decreases b,
{
    if b == 0 {
        a
    } else {
        gcd(b, a % b)
    }
}

/// The lowest common multiple, and the larger of the two when either is zero.
pub open spec fn lcm_of(a: nat, b: nat) -> nat {
    if a == 0 || b == 0 {
        if a >= b { a } else { b }
    } else {
        (a / gcd(a, b)) * b
    }
}

fn gcd_of(a: usize, b: usize) -> (r: usize)
    ensures
        r == gcd(a as nat, b as nat),
    decreases b,
{
    if b == 0 {
        a
    } else {
        gcd_of(b, a % b)
    }
}

proof fn lemma_gcd_divides(a: nat, b: nat)
    requires
        a > 0 || b > 0,
    ensures
        gcd(a, b) > 0,
        a % gcd(a, b) == 0,
        b % gcd(a, b) == 0,
    decreases b,
{
    if b == 0 {
        vstd::arithmetic::div_mod::lemma_mod_self_0(a as int);
        vstd::arithmetic::div_mod::lemma_small_mod(0nat, a);
    } else {
        lemma_gcd_divides(b, a % b);
        let g = gcd(b, a % b);
        assert(gcd(a, b) == g);
        let q = a / b;
        vstd::arithmetic::div_mod::lemma_fundamental_div_mod(a as int, b as int);
        // a == b * q + a % b, and g divides both b and a % b.
        let kb = b / g;
        let kr = (a % b) / g;
        vstd::arithmetic::div_mod::lemma_fundamental_div_mod(b as int, g as int);
        vstd::arithmetic::div_mod::lemma_fundamental_div_mod((a % b) as int, g as int);
        assert(b == g * kb);
        assert((a % b) as int == g * kr);
        assert(a == g * (kb * q + kr)) by (nonlinear_arith)
            requires
                a == b * q + (a % b) as int,
                b == g * kb,
                (a % b) as int == g * kr,
        ;
        vstd::arithmetic::div_mod::lemma_mod_multiples_basic((kb * q + kr) as int, g as int);
        assert(((g * (kb * q + kr)) as int) % (g as int) == 0) by (nonlinear_arith)
            requires
                (((kb * q + kr) * g) as int) % (g as int) == 0,
        ;
    }
}

/// The lowest common multiple is a multiple of both.
pub proof fn lemma_lcm_is_common_multiple(a: nat, b: nat)
    requires
        a > 0,
        b > 0,
    ensures
        lcm_of(a, b) % a == 0,
        lcm_of(a, b) % b == 0,
        lcm_of(a, b) > 0,
{
    lemma_gcd_divides(a, b);
    let g = gcd(a, b);
    vstd::arithmetic::div_mod::lemma_fundamental_div_mod(a as int, g as int);
    vstd::arithmetic::div_mod::lemma_fundamental_div_mod(b as int, g as int);
    let ka = a / g;
    let kb = b / g;
    assert(a == g * ka);
    assert(b == g * kb);
    assert(ka > 0) by (nonlinear_arith)
        requires
            a == g * ka,
            a > 0,
            g > 0,
    ;
    assert(ka * b == a * kb) by (nonlinear_arith)
        requires
            a == g * ka,
            b == g * kb,
    ;
    vstd::arithmetic::div_mod::lemma_mod_multiples_basic(ka as int, b as int);
    vstd::arithmetic::div_mod::lemma_mod_multiples_basic(kb as int, a as int);
    assert(((ka * b) as int) % (a as int) == 0) by (nonlinear_arith)
        requires
            ka * b == a * kb,
            ((kb * a) as int) % (a as int) == 0,
    ;
    assert(ka * b > 0) by (nonlinear_arith)
        requires
            ka > 0,
            b > 0,
    ;
}

/// Bezout's identity: the greatest common divisor is an integer combination
/// of the two.
proof fn lemma_bezout(a: nat, b: nat) -> (c: (int, int))
    ensures
        a * c.0 + b * c.1 == gcd(a, b),
    decreases b,
{
    if b == 0 {
        (1, 0)
    } else {
        let (x, y) = lemma_bezout(b, a % b);
        let q = (a / b) as int;
        let r = (a % b) as int;
        vstd::arithmetic::div_mod::lemma_fundamental_div_mod(a as int, b as int);
        assert(a * y + b * (x - q * y) == b * x + r * y) by (nonlinear_arith)
            requires
                a == b * q + r,
        ;
        (y, x - q * y)
    }
}

/// No positive common multiple of two positive numbers is below their lowest
/// common multiple: it is a multiple of it.
pub proof fn law_lcm_is_least(a: nat, b: nat, m: nat)
    requires
        a > 0,
        b > 0,
        m > 0,
        m % a == 0,
        m % b == 0,
    ensures
        lcm_of(a, b) <= m,
        m % lcm_of(a, b) == 0,
{
    lemma_gcd_divides(a, b);
    lemma_lcm_is_common_multiple(a, b);
    let g = gcd(a, b) as int;
    let (x, y) = lemma_bezout(a, b);
    vstd::arithmetic::div_mod::lemma_fundamental_div_mod(m as int, a as int);
    vstd::arithmetic::div_mod::lemma_fundamental_div_mod(m as int, b as int);
    vstd::arithmetic::div_mod::lemma_fundamental_div_mod(a as int, g);
    let s = (m / a) as int;
    let t = (m / b) as int;
    let ka = (a / (g as nat)) as int;
    let l = lcm_of(a, b) as int;
    assert(l == ka * b);
    let (ai, bi, mi) = (a as int, b as int, m as int);
    assert(mi * g == mi * ai * x + mi * bi * y) by (nonlinear_arith)
        requires
            g == ai * x + bi * y,
    ;
    assert(mi * ai * x == ai * bi * (t * x)) by (nonlinear_arith)
        requires
            mi == bi * t,
    ;
    assert(mi * bi * y == ai * bi * (s * y)) by (nonlinear_arith)
        requires
            mi == ai * s,
    ;
    assert(ai * bi == l * g) by (nonlinear_arith)
        requires
            ai == g * ka,
            l == ka * bi,
    ;
    let k = t * x + s * y;
    assert(ai * bi * (t * x) + ai * bi * (s * y) == (ai * bi) * k) by (nonlinear_arith)
        requires
            k == t * x + s * y,
    ;
    assert(mi * g == l * g * k) by (nonlinear_arith)
        requires
            mi * g == (ai * bi) * k,
            ai * bi == l * g,
    ;
    assert(m == l * k) by (nonlinear_arith)
        requires
            m * g == l * g * k,
            g > 0,
    ;
    assert(k >= 1) by (nonlinear_arith)
        requires
            m == l * k,
            m > 0,
            l > 0,
    ;
    assert(l <= m) by (nonlinear_arith)
        requires
            m == l * k,
            k >= 1,
            l > 0,
    ;
    vstd::arithmetic::div_mod::lemma_mod_multiples_basic(k, l);
    assert((k * l) % l == 0);
    assert(m as int == k * l) by (nonlinear_arith)
        requires
            m == l * k,
    ;
}

/// The lowest common multiple does not depend on which number comes first.
pub proof fn law_lcm_is_symmetric(a: nat, b: nat)
    ensures
        lcm_of(a, b) == lcm_of(b, a),
{
    if a > 0 && b > 0 {
        lemma_lcm_is_common_multiple(a, b);
        lemma_lcm_is_common_multiple(b, a);
        law_lcm_is_least(a, b, lcm_of(b, a));
        law_lcm_is_least(b, a, lcm_of(a, b));
    }
}

/// The lowest common multiple, for walking two grids that are both anchored
/// to the frame origin but need not be the same size.
pub fn lcm(a: usize, b: usize) -> (r: usize)
    requires
        lcm_of(a as nat, b as nat) <= usize::MAX,
    ensures
        r == lcm_of(a as nat, b as nat),
{
    if a == 0 || b == 0 {
        if a >= b { a } else { b }
    } else {
        proof {
            lemma_gcd_divides(a as nat, b as nat);
        }
        let g = gcd_of(a, b);
        let q = a / g;
        proof {
            vstd::arithmetic::div_mod::lemma_div_is_ordered_by_denominator(a as int, 1, g as int);
        }
        q * b
    }
}

/// How many of the cells of `p` hold colour `c`.
pub open spec fn count_in(p: Seq<u8>, c: u8) -> nat
    decreases p.len(),
{
    if p.len() == 0 {
        0
    } else {
        count_in(p.drop_last(), c) + if p.last() == c { 1nat } else { 0nat }
    }
}

/// The colour with the most cells, the later one on a tie.
pub open spec fn dominant_of(counts: Seq<nat>) -> usize {
    let b1: usize = if counts[1] >= counts[0] { 1 } else { 0 };
    let b2: usize = if counts[2] >= counts[b1 as int] { 2 } else { b1 };
    if counts[3] >= counts[b2 as int] { 3 } else { b2 }
}

/// How many colour indices have at least one cell, and never less than one.
pub open spec fn distinct_of(counts: Seq<nat>) -> usize {
    let n: int = (if counts[0] > 0 { 1int } else { 0 }) + (if counts[1] > 0 { 1int } else { 0 }) + (if counts[2] > 0 {
        1int
    } else {
        0
    }) + (if counts[3] > 0 { 1int } else { 0 });
    if n < 1 {
        1
    } else {
        n as usize
    }
}

/// One more than the highest colour index present, or one when none is.
pub open spec fn planes_of(counts: Seq<nat>) -> usize {
    if counts[3] > 0 {
        4
    } else if counts[2] > 0 {
        3
    } else if counts[1] > 0 {
        2
    } else {
        1
    }
}

/// The meaningful cells of a layout's colour-filter repeat.
pub open spec fn pattern_cells_of(layout: ImageLayout) -> Seq<u8> {
    layout.cfa_pattern@.take(layout.cfa_width as int * layout.cfa_height as int)
}

/// The colour-filter repeat, anchored to the frame origin.
#[derive(Debug, Clone, Copy)]
pub struct Mosaic {
    pub width: usize,
    pub height: usize,
    pub pattern: [u8; CFA_MAX_CELLS],
    /// How many distinct colour indices the pattern uses.
    pub colours: usize,
    /// One more than the highest colour index the pattern uses: the length
    /// every per-colour array needs, which is `colours` when the indices run
    /// from zero without a gap.
    pub planes: usize,
    /// The colour with the most cells in the repeat: green on a Bayer sensor.
    pub dominant: usize,
    /// The light-sensitive region, or the whole frame when the layout did not
    /// say.
    pub area: Area,
}

impl Mosaic {
    /// A repeat that can be indexed: non-empty and no larger than described.
    pub open spec fn wf(&self) -> bool {
        &&& 0 < self.width
        &&& 0 < self.height
        &&& self.width * self.height <= 36
    }

    /// What [`Mosaic::new`] makes of a layout.
    pub open spec fn describes(m: Mosaic, layout: ImageLayout) -> bool {
        let cells = pattern_cells_of(layout);
        let counts = seq![count_in(cells, 0), count_in(cells, 1), count_in(cells, 2), count_in(cells, 3)];
        &&& m.wf()
        &&& m.width == layout.cfa_width
        &&& m.height == layout.cfa_height
        &&& m.pattern == layout.cfa_pattern
        &&& m.colours == distinct_of(counts)
        &&& m.planes == planes_of(counts)
        &&& m.dominant == dominant_of(counts)
        &&& Some(m.area) == active_area_of(layout)
    }

    /// Whether a layout can be described as a mosaic at all.
    pub open spec fn describable(layout: ImageLayout) -> bool {
        let w = layout.cfa_width as int;
        let h = layout.cfa_height as int;
        &&& w > 0 && h > 0 && w * h <= 36
        &&& layout.components == 1 && layout.width > 0 && layout.height > 0
        &&& forall|i: int| 0 <= i < w * h ==> layout.cfa_pattern[i] < 4
        &&& active_area_of(layout) is Some
    }

    /// A single-component frame whose repeat is non-empty, no larger than
    /// described and uses colour indices below four is described, and its area
    /// is the whole frame when the frame names no active area and is at least
    /// three photosites each way.
    pub proof fn law_a_whole_frame_mosaic_is_described(layout: ImageLayout)
        requires
            layout.cfa_width > 0,
            layout.cfa_height > 0,
            layout.cfa_width * layout.cfa_height <= 36,
            layout.components == 1,
            forall|i: int| 0 <= i < layout.cfa_width * layout.cfa_height ==> layout.cfa_pattern[i] < 4,
            layout.active_width == 0 || layout.active_height == 0,
            layout.width >= 3,
            layout.height >= 3,
        ensures
            Mosaic::describable(layout),
            forall|m: Mosaic|
                Mosaic::describes(m, layout) ==> m.area == (Area {
                    x: 0,
                    y: 0,
                    width: layout.width as usize,
                    height: layout.height as usize,
                }),
    {
        law_active_area_is_where_light_fell(layout);
    }

    /// `None` for a frame this cannot describe: not mosaiced, more than one
    /// component, a colour index beyond the fourth, or an active area that
    /// does not lie inside the frame.
    pub fn new(layout: &ImageLayout) -> (r: Option<Mosaic>)
        ensures
            r is Some <==> Mosaic::describable(*layout),
            r matches Some(m) ==> Mosaic::describes(m, *layout),
    {
        let w = layout.cfa_width as usize;
        let h = layout.cfa_height as usize;
        if w == 0 || h == 0 {
            return None;
        }
        let cells = match w.checked_mul(h) {
            Some(cells) => cells,
            None => return None,
        };
        if cells > CFA_MAX_CELLS {
            return None;
        }
        if layout.components != 1 || layout.width == 0 || layout.height == 0 {
            return None;
        }
        let ghost p = pattern_cells_of(*layout);
        let mut counts: [usize; 4] = [0, 0, 0, 0];
        let mut i: usize = 0;
        while i < cells
            invariant
                i <= cells,
                cells <= 36,
                cells as int == layout.cfa_width as int * layout.cfa_height as int,
                p == layout.cfa_pattern@.take(cells as int),
                forall|k: int| 0 <= k < i ==> layout.cfa_pattern[k] < 4,
                forall|c: int| 0 <= c < 4 ==> counts[c] == count_in(p.take(i as int), c as u8),
                forall|c: int| 0 <= c < 4 ==> counts[c] <= i,
            decreases cells - i,
        {
            let colour = layout.cfa_pattern[i];
            if colour >= 4 {
                proof {
                    assert(!(forall|k: int| 0 <= k < cells ==> layout.cfa_pattern[k] < 4));
                }
                return None;
            }
            proof {
                assert(p.take(i + 1).drop_last() =~= p.take(i as int));
                assert(p.take(i + 1).last() == colour);
            }
            counts[colour as usize] = counts[colour as usize] + 1;
            i = i + 1;
        }
        proof {
            assert(p.take(cells as int) =~= p);
        }
        let area = match active_area(layout) {
            Some(area) => area,
            None => return None,
        };
        let mut dominant: usize = 0;
        if counts[1] >= counts[dominant] {
            dominant = 1;
        }
        if counts[2] >= counts[dominant] {
            dominant = 2;
        }
        if counts[3] >= counts[dominant] {
            dominant = 3;
        }
        let mut used: usize = 0;
        let mut c: usize = 0;
        while c < 4
            invariant
                c <= 4,
                used as int == (if c > 0 && counts[0] > 0 { 1int } else { 0 }) + (if c > 1 && counts[1] > 0 {
                    1int
                } else {
                    0
                }) + (if c > 2 && counts[2] > 0 { 1int } else { 0 }) + (if c > 3 && counts[3] > 0 { 1int } else { 0 }),
            decreases 4 - c,
        {
            if counts[c] > 0 {
                used = used + 1;
            }
            c = c + 1;
        }
        let colours: usize = if used < 1 {
            1
        } else {
            used
        };
        let planes: usize = if counts[3] > 0 {
            4
        } else if counts[2] > 0 {
            3
        } else if counts[1] > 0 {
            2
        } else {
            1
        };
        Some(Mosaic { width: w, height: h, pattern: layout.cfa_pattern, colours, planes, dominant, area })
    }

    /// The colour-filter index at a photosite.
    pub fn colour_at(&self, x: usize, y: usize) -> (r: usize)
        requires
            self.wf(),
        ensures
            r == self.pattern[((y % self.height) * self.width + (x % self.width)) as int],
    {
        proof {
            assert((y % self.height) * self.width + (x % self.width) < self.width * self.height) by (nonlinear_arith)
                requires
                    0 < self.width,
                    0 < self.height,
                    y % self.height < self.height,
                    x % self.width < self.width,
            ;
        }
        self.pattern[(y % self.height) * self.width + (x % self.width)] as usize
    }
}

/// The colour at a photosite repeats with the mosaic: moving a whole repeat
/// across or down lands on the same colour.
pub proof fn lemma_colour_repeats(m: Mosaic, x: nat, y: nat)
    requires
        m.wf(),
    ensures
        (x + m.width) as int % (m.width as int) == x as int % (m.width as int),
        (y + m.height) as int % (m.height as int) == y as int % (m.height as int),
{
    vstd::arithmetic::div_mod::lemma_mod_add_multiples_vanish(x as int, m.width as int);
    vstd::arithmetic::div_mod::lemma_mod_add_multiples_vanish(y as int, m.height as int);
}

} // verus!
