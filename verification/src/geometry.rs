//! Letterboxing: how a picture is fitted into the model's input, and how boxes
//! are taken back to the picture.
use crate::double::{lemma_pow2_ordered, Double};
use crate::number::{
    clipped, is_ceiling, is_floor, is_nearest, law_ceiling, law_floor, law_round, law_smaller_of_two,
    lemma_rounded_error, lemma_rounded_exact, one, rounded, whole, within, Number,
};
use crate::single::Single;
use vstd::arithmetic::mul::lemma_mul_inequality_converse;
use vstd::arithmetic::power2::{
    lemma2_to64, lemma2_to64_rest, lemma_pow2_adds, lemma_pow2_pos, lemma_pow2_strictly_increases,
    lemma_pow2_unfold, pow2,
};
use vstd::prelude::*;

verus! {

/// How a picture is fitted into the model's input: scaled by `scale` to
/// `resized_width` by `resized_height`, then padded on the four sides.
#[derive(Debug, Clone, Copy)]
pub struct Letterbox {
    pub scale: Double,
    pub left: u32,
    pub top: u32,
    pub right: u32,
    pub bottom: u32,
    pub resized_width: u32,
    pub resized_height: u32,
}

/// A box in the picture, in whole pixels.
#[derive(Debug, Clone, Copy, PartialEq, Eq, Structural)]
pub struct BoundingBox {
    pub x: u32,
    pub y: u32,
    pub width: u32,
    pub height: u32,
}

/// The part of the prototype grid that a box covers: columns `x0` to `x1` and
/// rows `y0` to `y1`, the upper bounds excluded.
#[derive(Debug, Clone, Copy, PartialEq, Eq, Structural)]
pub struct CropWindow {
    pub x0: i64,
    pub y0: i64,
    pub x1: i64,
    pub y1: i64,
}

/// The ratio of a side of the input to the side of the picture.
pub open spec fn side_scale(source: nat, target: nat) -> Number {
    whole(target).over(whole(source))
}

/// The scale at which the whole picture fits the input.
pub open spec fn fitting_scale(
    source_width: nat,
    source_height: nat,
    target_width: nat,
    target_height: nat,
) -> Number {
    side_scale(source_width, target_width).smaller(side_scale(source_height, target_height))
}

/// A side of the picture after scaling, in whole pixels.
pub open spec fn resized_side(source: nat, scale: Number) -> int {
    whole(source).times(scale).round_within(0, u32::MAX as int)
}

proof fn lemma_one()
    ensures
        one() >= 0x1_0000_0000_0000_0000_0000_0000,
        one() * 0x2_0000_0000 < pow2(2098),
{
    lemma2_to64();
    lemma2_to64_rest();
    lemma_pow2_adds(32, 64);
    lemma_pow2_ordered(96, 1074);
    lemma_pow2_adds(1074, 33);
    lemma_pow2_strictly_increases(1107, 2098);
}

/// Rounding `part / k`, both in units of `u`, moves it by at most half a unit or
/// one part in 2^53.
proof fn lemma_rounded_gap(part: nat, k: nat, u: nat)
    requires
        k > 0,
        u > 0,
    ensures
        ({
            let gap: int = rounded(part * u, k * u) * k - part;
            ||| -(k as int) <= 2 * gap <= k
            ||| -(part as int) <= 0x20_0000_0000_0000 * gap <= part
        }),
{
    let n: nat = part * u;
    let d: nat = k * u;
    let v: nat = rounded(n, d);
    let gap: int = v * k - part;
    assert(d > 0 && v * d - n == gap * u) by (nonlinear_arith)
        requires
            k > 0,
            u > 0,
            n == part * u,
            d == k * u,
            gap == v * k - part,
    ;
    lemma_rounded_error(n, d);
    let error: int = v * d - n;
    if -(d as int) <= 2 * error <= d {
        assert((2 * gap) * u == 2 * error && (-(k as int)) * u == -(d as int)) by (nonlinear_arith)
            requires
                error == gap * u,
                d == k * u,
        ;
        lemma_mul_inequality_converse(2 * gap, k as int, u as int);
        lemma_mul_inequality_converse(-(k as int), 2 * gap, u as int);
    } else {
        assert((0x20_0000_0000_0000 * gap) * u == 0x20_0000_0000_0000 * error && (-(part as int))
            * u == -(n as int)) by (nonlinear_arith)
            requires
                error == gap * u,
                n == part * u,
        ;
        lemma_mul_inequality_converse(0x20_0000_0000_0000 * gap, part as int, u as int);
        lemma_mul_inequality_converse(-(part as int), 0x20_0000_0000_0000 * gap, u as int);
    }
}

/// The ratio of two sides times the one side comes close to the other.
proof fn lemma_side_ratio(source: nat, target: nat)
    requires
        0 < source <= u32::MAX,
        target <= u32::MAX,
    ensures
        ({
            let ratio: nat = rounded((target * one()) * one(), source * one());
            let gap: int = ratio * source - target * one();
            &&& -(one() as int) <= 0x20_0000 * gap <= one()
            &&& ratio < pow2(2098)
            &&& side_scale(source, target) == (Number::Finite { negative: false, units: ratio })
        }),
{
    let u: nat = one();
    let n: nat = (target * u) * u;
    let d: nat = source * u;
    let ratio: nat = rounded(n, d);
    lemma_one();
    assert(d > 0) by (nonlinear_arith)
        requires
            source > 0,
            u > 0,
            d == source * u,
    ;
    lemma_rounded_gap(target * u, source, u);
    assert(target * u <= 0xffff_ffff * u) by (nonlinear_arith)
        requires
            target <= 0xffff_ffff,
    ;
    assert(ratio <= ratio * source) by (nonlinear_arith)
        requires
            source >= 1,
    ;
}

/// A side scaled by no more than its own ratio stays within the input; scaled by
/// its own ratio it fills the input.
proof fn lemma_resized_side(source: nat, target: nat, units: nat)
    requires
        0 < source <= u32::MAX,
        target <= u32::MAX,
        units <= rounded((target * one()) * one(), source * one()),
    ensures
        resized_side(source, Number::Finite { negative: false, units }) <= target,
        units == rounded((target * one()) * one(), source * one()) ==> resized_side(
            source,
            Number::Finite { negative: false, units },
        ) == target,
{
    let u: nat = one();
    let ratio: nat = rounded((target * u) * u, source * u);
    lemma_one();
    lemma_side_ratio(source, target);
    let n: nat = (source * u) * units;
    let v: nat = rounded(n, u);
    assert(n == (source * units) * u) by (nonlinear_arith)
        requires
            n == (source * u) * units,
    ;
    lemma_rounded_gap(source * units, 1, u);
    assert(1 * u == u && v * 1 == v);
    assert(source * units <= ratio * source) by (nonlinear_arith)
        requires
            units <= ratio,
    ;
    assert(target * u <= 0xffff_ffff * u) by (nonlinear_arith)
        requires
            target <= 0xffff_ffff,
    ;
    let top: int = (2 * v + u) as int;
    let side: int = top / (2 * u) as int;
    assert(top < 2 * (target * u) + 2 * u);
    vstd::arithmetic::div_mod::lemma_fundamental_div_mod(top, (2 * u) as int);
    if side > target {
        assert((2 * u) * side >= (2 * u) * (target + 1)) by (nonlinear_arith)
            requires
                side >= target + 1,
        ;
        assert((2 * u) * (target + 1) == 2 * (target * u) + 2 * u) by (nonlinear_arith);
    }
    if units == ratio && side < target {
        assert(source * units == ratio * source) by (nonlinear_arith)
            requires
                units == ratio,
        ;
        assert((2 * u) * side <= (2 * u) * (target - 1)) by (nonlinear_arith)
            requires
                side <= target - 1,
        ;
        assert((2 * u) * (target - 1) == 2 * (target * u) - 2 * u) by (nonlinear_arith);
    }
    assert(side >= 0) by {
        vstd::arithmetic::div_mod::lemma_div_pos_is_pos(top, (2 * u) as int);
    }
}

/// Neither side of the picture outgrows the input, and a picture that is not
/// empty fills one side of it.
pub proof fn law_picture_fits_input(
    source_width: nat,
    source_height: nat,
    target_width: nat,
    target_height: nat,
)
    requires
        source_width <= u32::MAX,
        source_height <= u32::MAX,
        target_width <= u32::MAX,
        target_height <= u32::MAX,
    ensures
        ({
            let scale: Number = fitting_scale(
                source_width,
                source_height,
                target_width,
                target_height,
            );
            &&& 0 <= resized_side(source_width, scale) <= target_width
            &&& 0 <= resized_side(source_height, scale) <= target_height
            &&& source_width > 0 && source_height > 0 ==> resized_side(source_width, scale)
                == target_width || resized_side(source_height, scale) == target_height
        }),
{
    let a: Number = side_scale(source_width, target_width);
    let b: Number = side_scale(source_height, target_height);
    let scale: Number = a.smaller(b);
    lemma_one();
    if source_width > 0 {
        lemma_side_ratio(source_width, target_width);
        lemma_resized_side(source_width, target_width, scale->units);
    } else {
        lemma_resized_nothing(scale);
        lemma_no_side(target_width);
    }
    if source_height > 0 {
        lemma_side_ratio(source_height, target_height);
        lemma_resized_side(source_height, target_height, scale->units);
    } else {
        lemma_resized_nothing(scale);
        lemma_no_side(target_height);
    }
}

/// The ratio to a side of nothing is no finite number.
proof fn lemma_no_side(target: nat)
    ensures
        side_scale(0, target) is NotANumber || side_scale(0, target) == (Number::Infinite {
            negative: false,
        }),
{
    assert(0 * one() == 0) by (nonlinear_arith);
}

/// A side of nothing stays nothing.
proof fn lemma_resized_nothing(scale: Number)
    ensures
        resized_side(0, scale) == 0,
{
    let u: nat = one();
    lemma_one();
    assert(0 * u == 0) by (nonlinear_arith);
    if scale is Finite {
        let units: nat = scale->units;
        assert(0 * units == 0) by (nonlinear_arith);
        vstd::arithmetic::div_mod::lemma_fundamental_div_mod_converse(0, u as int, 0, 0);
        vstd::arithmetic::div_mod::lemma_fundamental_div_mod_converse(
            u as int,
            (2 * u) as int,
            0,
            u as int,
        );
    }
}

/// The double nearest to one tenth.
spec fn one_tenth() -> Number {
    Number::Finite { negative: false, units: 0x19_9999_9999_999a * pow2(1018) }
}

/// Half of a whole number is exact.
proof fn lemma_half(room: nat)
    requires
        room <= u32::MAX,
    ensures
        whole(room).over(whole(2)) == (Number::Finite {
            negative: false,
            units: room * 0x80_0000_0000_0000 * pow2(1018),
        }),
        one() == 0x100_0000_0000_0000 * pow2(1018),
{
    let u: nat = one();
    let p: nat = pow2(1018);
    lemma_one();
    lemma2_to64();
    lemma2_to64_rest();
    lemma_pow2_adds(56, 1018);
    lemma_pow2_adds(55, 1018);
    lemma_pow2_adds(1074, 1074);
    lemma_pow2_unfold(1075);
    lemma_rounded_exact(room, 2148, 1075);
    assert((room * u) * u == room * pow2(2148)) by (nonlinear_arith)
        requires
            u * u == pow2(2148),
    ;
    assert(2 * u == pow2(1075));
    assert(room * pow2(1073) == room * 0x80_0000_0000_0000 * p) by (nonlinear_arith)
        requires
            pow2(1073) == 0x80_0000_0000_0000 * p,
    ;
    assert(room * pow2(1073) <= 0xffff_ffff * pow2(1073)) by (nonlinear_arith)
        requires
            room <= 0xffff_ffff,
    ;
}

/// A number of units, rounded, stays close to itself.
proof fn lemma_rounded_near(units: nat, bound: nat)
    requires
        units <= 0x20_0000_0000_0000 * bound,
    ensures
        -(bound as int) <= rounded(units, 1) - units <= bound,
{
    lemma_rounded_error(units, 1);
    let v: nat = rounded(units, 1);
    assert(v * 1 == v);
    if -1 <= 2 * (v - units) <= 1 {
        assert(v == units);
    }
}

/// The odd pixel of the room that is left over goes to the far side.
proof fn lemma_padding(room: nat)
    requires
        room <= u32::MAX,
    ensures
        ({
            let half: Number = whole(room).over(whole(2));
            &&& half.minus(one_tenth()).round_within(0, u32::MAX as int) == room / 2
            &&& half.plus(one_tenth()).round_within(0, u32::MAX as int) == room - room / 2
        }),
{
    let p: nat = pow2(1018);
    let u: nat = one();
    let a: nat = room * 0x80_0000_0000_0000 * p;
    let t: nat = 0x19_9999_9999_999a * p;
    lemma_half(room);
    lemma_one();
    lemma_pow2_pos(1018);
    let q: nat = room / 2;
    let near: nat = 0x4_0000_0000 * p;
    assert(a + t <= 0x80_0000_0000_0000_0000_0000 * p) by (nonlinear_arith)
        requires
            a == room * 0x80_0000_0000_0000 * p,
            t == 0x19_9999_9999_999a * p,
            room <= 0xffff_ffff,
    ;
    assert(u * 0x2_0000_0000 < pow2(2098));
    assert(2 * a == room * u) by (nonlinear_arith)
        requires
            a == room * 0x80_0000_0000_0000 * p,
            u == 0x100_0000_0000_0000 * p,
    ;
    // the near side
    if room == 0 {
        assert(a == 0) by (nonlinear_arith)
            requires
                a == room * 0x80_0000_0000_0000 * p,
                room == 0,
        ;
        lemma_rounded_near(t, near);
        let v: nat = rounded(t, 1);
        vstd::arithmetic::div_mod::lemma_fundamental_div_mod_converse(
            (2 * v + u) as int,
            (2 * u) as int,
            0,
            (2 * v + u) as int,
        );
        lemma_rounded_near(a + t, near);
    } else {
        assert(a > t) by (nonlinear_arith)
            requires
                a == room * 0x80_0000_0000_0000 * p,
                room >= 1,
                t == 0x19_9999_9999_999a * p,
                p > 0,
        ;
        lemma_rounded_near((a - t) as nat, near);
        let v: nat = rounded((a - t) as nat, 1);
        lemma_half_pixel(v, u, room, q);
    }
    // the far side
    lemma_rounded_near(a + t, near);
    let w: nat = rounded(a + t, 1);
    lemma_half_pixel(w, u, room, (room - q) as nat);
}

/// A value within half a pixel of a whole number rounds to it.
proof fn lemma_half_pixel(v: nat, u: nat, room: nat, goal: nat)
    requires
        u > 0,
        room - 1 <= 2 * goal <= room + 1,
        2 * goal == room ==> -(u as int) <= 2 * v - room * u < u,
        2 * goal == room + 1 ==> 0 <= 2 * v - room * u < 2 * u,
        2 * goal == room - 1 ==> -2 * u <= 2 * v - room * u < 0,
    ensures
        (2 * v + u) as int / (2 * u) as int == goal,
{
    let rest: int = 2 * v + u - goal * (2 * u);
    assert(goal * (2 * u) == (2 * goal) * u) by (nonlinear_arith);
    if 2 * goal == room + 1 {
        assert((room + 1) * u == room * u + u) by (nonlinear_arith);
    } else if 2 * goal == room - 1 {
        assert((room - 1) * u == room * u - u) by (nonlinear_arith);
    }
    vstd::arithmetic::div_mod::lemma_fundamental_div_mod_converse(
        (2 * v + u) as int,
        (2 * u) as int,
        goal as int,
        rest,
    );
}

impl Letterbox {
    /// Whether this is how a picture of the given size is fitted into the input.
    pub open spec fn fits(
        self,
        source_width: nat,
        source_height: nat,
        target_width: nat,
        target_height: nat,
    ) -> bool {
        let scale: Number = fitting_scale(
            source_width,
            source_height,
            target_width,
            target_height,
        );
        let spare_width: int = target_width - resized_side(source_width, scale);
        let spare_height: int = target_height - resized_side(source_height, scale);
        &&& self.scale@ == scale
        &&& self.resized_width == resized_side(source_width, scale)
        &&& self.resized_height == resized_side(source_height, scale)
        &&& self.left == spare_width / 2
        &&& self.right == spare_width - spare_width / 2
        &&& self.top == spare_height / 2
        &&& self.bottom == spare_height - spare_height / 2
    }

    /// Whether a picture is fitted into the input in the same way.
    pub open spec fn alike(self, other: Letterbox) -> bool {
        &&& self.scale@ == other.scale@
        &&& self.left == other.left
        &&& self.top == other.top
        &&& self.right == other.right
        &&& self.bottom == other.bottom
        &&& self.resized_width == other.resized_width
        &&& self.resized_height == other.resized_height
    }

    /// The size to which the picture is scaled, rows first.
    pub fn upsample_size(&self) -> (size: [i64; 2])
        ensures
            size@ == seq![self.resized_height as i64, self.resized_width as i64],
    {
        [self.resized_height as i64, self.resized_width as i64]
    }

    /// The padding of the scaled picture: left, right, top, bottom.
    pub fn padding(&self) -> (padding: [i64; 4])
        ensures
            padding@ == seq![
                self.left as i64,
                self.right as i64,
                self.top as i64,
                self.bottom as i64,
            ],
    {
        [self.left as i64, self.right as i64, self.top as i64, self.bottom as i64]
    }
}

/// How a picture is fitted into an input of the given size: scaled by one factor,
/// so that it fits, and padded around.
pub fn letterbox(
    source_width: u32,
    source_height: u32,
    target_width: u32,
    target_height: u32,
) -> (transform: Letterbox)
    ensures
        transform.fits(
            source_width as nat,
            source_height as nat,
            target_width as nat,
            target_height as nat,
        ),
        transform.left + transform.resized_width + transform.right == target_width,
        transform.top + transform.resized_height + transform.bottom == target_height,
{
    let scale: Double = Double::from_u32(target_width).over(
        Double::from_u32(source_width),
    ).smaller(Double::from_u32(target_height).over(Double::from_u32(source_height)));
    let resized_width: u32 = Double::from_u32(source_width).times(scale).round_to_u32();
    let resized_height: u32 = Double::from_u32(source_height).times(scale).round_to_u32();
    proof {
        law_picture_fits_input(
            source_width as nat,
            source_height as nat,
            target_width as nat,
            target_height as nat,
        );
    }
    let (left, right): (u32, u32) = split_room(target_width - resized_width);
    let (top, bottom): (u32, u32) = split_room(target_height - resized_height);
    Letterbox { scale, left, top, right, bottom, resized_width, resized_height }
}

/// The room that is left over, split between the two sides.
fn split_room(room: u32) -> (sides: (u32, u32))
    ensures
        sides.0 == room / 2,
        sides.1 == room - room / 2,
{
    let half: Double = Double::from_u32(room).over(Double::from_u32(2));
    let nudge: Double = Double { bits: 0x3fb9_9999_9999_999a };
    proof {
        lemma_padding(room as nat);
        assert(nudge@ == one_tenth());
    }
    (half.minus(nudge).round_to_u32(), half.plus(nudge).round_to_u32())
}

/// A coordinate of the input, taken back to the picture.
pub open spec fn source_coordinate(coordinate: Number, offset: u32, scale: Number) -> Number {
    coordinate.minus(whole(offset as nat)).over(scale)
}

/// The pixel edge at or before a coordinate, within a side of the picture.
pub open spec fn edge_before(coordinate: Number, side: u32) -> int {
    within(coordinate.floor_within(i64::MIN as int, i64::MAX as int), 0, side as int)
}

/// The pixel edge at or after a coordinate, within a side of the picture.
pub open spec fn edge_after(coordinate: Number, side: u32) -> int {
    within(coordinate.ceil_within(i64::MIN as int, i64::MAX as int), 0, side as int)
}

/// The box of the picture that holds the box of the input with the corners
/// `(row[0], row[1])` and `(row[2], row[3])`, if any pixel is in it.
pub open spec fn mapped_box(
    row: Seq<Single>,
    transform: Letterbox,
    source_width: u32,
    source_height: u32,
) -> Option<BoundingBox> {
    let scale: Number = transform.scale@;
    let left: int = edge_before(source_coordinate(row[0]@, transform.left, scale), source_width);
    let top: int = edge_before(source_coordinate(row[1]@, transform.top, scale), source_height);
    let right: int = edge_after(source_coordinate(row[2]@, transform.left, scale), source_width);
    let bottom: int = edge_after(source_coordinate(row[3]@, transform.top, scale), source_height);
    if right > left && bottom > top {
        Some(
            BoundingBox {
                x: left as u32,
                y: top as u32,
                width: (right - left) as u32,
                height: (bottom - top) as u32,
            },
        )
    } else {
        None
    }
}

fn clamp_to_side(value: i64, side: u32) -> (edge: u32)
    ensures
        edge == within(value as int, 0, side as int),
{
    if value < 0 {
        0
    } else if value > side as i64 {
        side
    } else {
        value as u32
    }
}

/// The box of the picture that holds a box of the input.
pub fn map_box(
    row: &[Single],
    transform: &Letterbox,
    source_width: u32,
    source_height: u32,
) -> (bbox: Option<BoundingBox>)
    requires
        row@.len() >= 4,
    ensures
        bbox == mapped_box(row@, *transform, source_width, source_height),
{
    let offset_x: Double = Double::from_u32(transform.left);
    let offset_y: Double = Double::from_u32(transform.top);
    let x1: Double = row[0].to_double().minus(offset_x).over(transform.scale);
    let y1: Double = row[1].to_double().minus(offset_y).over(transform.scale);
    let x2: Double = row[2].to_double().minus(offset_x).over(transform.scale);
    let y2: Double = row[3].to_double().minus(offset_y).over(transform.scale);
    let left: u32 = clamp_to_side(x1.floor_to_i64(), source_width);
    let top: u32 = clamp_to_side(y1.floor_to_i64(), source_height);
    let right: u32 = clamp_to_side(x2.ceil_to_i64(), source_width);
    let bottom: u32 = clamp_to_side(y2.ceil_to_i64(), source_height);
    if right > left && bottom > top {
        Some(BoundingBox { x: left, y: top, width: right - left, height: bottom - top })
    } else {
        None
    }
}

/// A pixel edge of the picture on the prototype grid, of which one side has
/// `cells` cells for `input` pixels of the model's input.
pub open spec fn grid_coordinate(
    edge: nat,
    offset: u32,
    scale: Number,
    cells: i64,
    input: u32,
) -> Number {
    let ratio: Number = clipped(false, rounded(cells as nat * one(), 1)).over(whole(input as nat));
    whole(offset as nat).plus(whole(edge).times(scale)).times(ratio)
}

/// The first of the cells that the edges from `low` to `high` cover, and the one
/// after the last.
pub open spec fn covered_cells(
    low: nat,
    high: nat,
    offset: u32,
    scale: Number,
    cells: i64,
    input: u32,
) -> (int, int) {
    let first: int = within(
        grid_coordinate(low, offset, scale, cells, input).floor_within(
            i64::MIN as int,
            i64::MAX as int,
        ),
        0,
        cells - 1,
    );
    let end: int = within(
        grid_coordinate(high, offset, scale, cells, input).ceil_within(
            i64::MIN as int,
            i64::MAX as int,
        ),
        first + 1,
        cells as int,
    );
    (first, end)
}

/// The columns and the rows of the prototype grid that a box covers.
pub open spec fn covered_window(
    bbox: BoundingBox,
    transform: Letterbox,
    proto_width: i64,
    proto_height: i64,
    input_width: u32,
    input_height: u32,
) -> ((int, int), (int, int)) {
    (
        covered_cells(
            bbox.x as nat,
            (bbox.x + bbox.width) as nat,
            transform.left,
            transform.scale@,
            proto_width,
            input_width,
        ),
        covered_cells(
            bbox.y as nat,
            (bbox.y + bbox.height) as nat,
            transform.top,
            transform.scale@,
            proto_height,
            input_height,
        ),
    )
}

/// The cells of one side of the prototype grid that the edges from `low` to
/// `high` cover.
fn cover_cells(
    low: u32,
    high: u32,
    offset: u32,
    scale: Double,
    cells: i64,
    input: u32,
) -> (range: (i64, i64))
    requires
        cells > 0,
    ensures
        (range.0 as int, range.1 as int) == covered_cells(
            low as nat,
            high as nat,
            offset,
            scale@,
            cells,
            input,
        ),
        0 <= range.0 < range.1 <= cells,
{
    let ratio: Double = Double::from_i64(cells).over(Double::from_u32(input));
    let start: Double = Double::from_u32(offset).plus(Double::from_u32(low).times(scale)).times(
        ratio,
    );
    let stop: Double = Double::from_u32(offset).plus(Double::from_u32(high).times(scale)).times(
        ratio,
    );
    let floor: i64 = start.floor_to_i64();
    let first: i64 = if floor < 0 {
        0
    } else if floor > cells - 1 {
        cells - 1
    } else {
        floor
    };
    let ceil: i64 = stop.ceil_to_i64();
    let end: i64 = if ceil < first + 1 {
        first + 1
    } else if ceil > cells {
        cells
    } else {
        ceil
    };
    (first, end)
}

/// The part of the prototype grid from which the mask of a box is drawn.
pub fn crop_window(
    bbox: &BoundingBox,
    transform: &Letterbox,
    proto_width: i64,
    proto_height: i64,
    input_width: u32,
    input_height: u32,
) -> (window: CropWindow)
    requires
        proto_width > 0,
        proto_height > 0,
        bbox.x + bbox.width <= u32::MAX,
        bbox.y + bbox.height <= u32::MAX,
    ensures
        ((window.x0 as int, window.x1 as int), (window.y0 as int, window.y1 as int))
            == covered_window(
            *bbox,
            *transform,
            proto_width,
            proto_height,
            input_width,
            input_height,
        ),
        0 <= window.x0 < window.x1 <= proto_width,
        0 <= window.y0 < window.y1 <= proto_height,
{
    let (x0, x1): (i64, i64) = cover_cells(
        bbox.x,
        bbox.x + bbox.width,
        transform.left,
        transform.scale,
        proto_width,
        input_width,
    );
    let (y0, y1): (i64, i64) = cover_cells(
        bbox.y,
        bbox.y + bbox.height,
        transform.top,
        transform.scale,
        proto_height,
        input_height,
    );
    CropWindow { x0, y0, x1, y1 }
}

/// The scale at which a picture fits is not zero, and not beyond the ratio of
/// either side.
proof fn lemma_fitting_scale(
    source_width: nat,
    source_height: nat,
    target_width: nat,
    target_height: nat,
)
    requires
        0 < source_width <= u32::MAX,
        0 < source_height <= u32::MAX,
        0 < target_width <= u32::MAX,
        0 < target_height <= u32::MAX,
    ensures
        ({
            let u: nat = one();
            let scale: Number = fitting_scale(
                source_width,
                source_height,
                target_width,
                target_height,
            );
            let c: nat = scale->units;
            &&& scale == (Number::Finite { negative: false, units: c })
            &&& c <= rounded((target_width * u) * u, source_width * u)
            &&& c <= rounded((target_height * u) * u, source_height * u)
            &&& u <= 0x2_0000_0000 * c
        }),
{
    lemma_one();
    lemma_side_ratio(source_width, target_width);
    lemma_side_ratio(source_height, target_height);
    lemma_ratio_positive(source_width, target_width);
    lemma_ratio_positive(source_height, target_height);
}

proof fn lemma_ratio_positive(source: nat, target: nat)
    requires
        0 < source <= u32::MAX,
        0 < target <= u32::MAX,
    ensures
        one() <= 0x2_0000_0000 * rounded((target * one()) * one(), source * one()),
{
    let u: nat = one();
    let ratio: nat = rounded((target * u) * u, source * u);
    lemma_one();
    lemma_side_ratio(source, target);
    assert(target * u >= u) by (nonlinear_arith)
        requires
            target >= 1,
    ;
    assert(ratio * source <= 0x1_0000_0000 * ratio) by (nonlinear_arith)
        requires
            source <= 0x1_0000_0000,
    ;
}

/// The difference of two whole numbers is exact.
proof fn lemma_whole_difference(low: nat, high: nat)
    requires
        low <= high <= 0x2_0000_0000,
    ensures
        whole(high).minus(whole(low)) == whole((high - low) as nat),
{
    let u: nat = one();
    let gap: nat = (high - low) as nat;
    lemma_one();
    lemma2_to64();
    assert(high * u - low * u == gap * u) by (nonlinear_arith)
        requires
            gap == high - low,
    ;
    assert(gap * u <= 0x2_0000_0000 * u) by (nonlinear_arith)
        requires
            gap <= 0x2_0000_0000,
    ;
    lemma_rounded_exact(gap, 1074, 0);
    if gap > 0 {
        assert(gap * u > 0) by (nonlinear_arith)
            requires
                gap > 0,
                u > 0,
        ;
    } else {
        assert(gap * u == 0) by (nonlinear_arith)
            requires
                gap == 0,
        ;
    }
}

/// The near edge of the scaled picture goes back to the near edge of the picture.
proof fn lemma_near_edge(offset: u32, source: u32, c: nat)
    requires
        c > 0,
    ensures
        edge_before(
            source_coordinate(
                whole(offset as nat),
                offset,
                Number::Finite { negative: false, units: c },
            ),
            source,
        ) == 0,
{
    let u: nat = one();
    lemma_one();
    lemma_whole_difference(offset as nat, offset as nat);
    assert(0 * u == 0) by (nonlinear_arith);
    assert((0 * u) * u == 0) by (nonlinear_arith);
    vstd::arithmetic::div_mod::lemma_fundamental_div_mod_converse(0, c as int, 0, 0);
    lemma_pow2_pos(2098);
    vstd::arithmetic::div_mod::lemma_fundamental_div_mod_converse(0, u as int, 0, 0);
}

/// The far edge of the scaled picture goes back to within half an input pixel,
/// and what rounding adds to it, of the far edge of the picture.
proof fn lemma_far_edge(offset: u32, source: u32, target: u32, c: nat)
    requires
        source > 0,
        target > 0,
        c <= rounded((target as nat * one()) * one(), source as nat * one()),
        one() <= 0x2_0000_0000 * c,
    ensures
        ({
            let scale: Number = Number::Finite { negative: false, units: c };
            let side: int = resized_side(source as nat, scale);
            let edge: int = edge_after(
                source_coordinate(whole((offset + side) as nat), offset, scale),
                source,
            );
            &&& edge <= source
            &&& side > 0 ==> edge > 0
            &&& 0x8_0000 * ((source - edge) * c) <= 0x4_0001 * one()
        }),
{
    let u: nat = one();
    let scale: Number = Number::Finite { negative: false, units: c };
    let side: nat = resized_side(source as nat, scale) as nat;
    let ratio: nat = rounded((target as nat * u) * u, source as nat * u);
    lemma_one();
    lemma_side_ratio(source as nat, target as nat);
    lemma_resized_side(source as nat, target as nat, c);
    let sc: nat = source as nat * c;
    assert(sc <= ratio * source) by (nonlinear_arith)
        requires
            sc == source as nat * c,
            c <= ratio,
    ;
    assert(target as nat * u <= 0xffff_ffff * u) by (nonlinear_arith)
        requires
            target <= 0xffff_ffff,
    ;
    assert(ratio <= ratio * source) by (nonlinear_arith)
        requires
            source >= 1,
    ;
    // the scaled side, before it is made whole
    let n: nat = (source as nat * u) * c;
    let w: nat = rounded(n, u);
    assert(n == sc * u) by (nonlinear_arith)
        requires
            n == (source as nat * u) * c,
            sc == source as nat * c,
    ;
    lemma_error_over_unit(sc, u, w);
    let top: int = (2 * w + u) as int;
    vstd::arithmetic::div_mod::lemma_fundamental_div_mod(top, (2 * u) as int);
    let whole_side: int = top / (2 * u) as int;
    vstd::arithmetic::div_mod::lemma_div_pos_is_pos(top, (2 * u) as int);
    assert(w < 0x1_0000_0001 * u);
    assert(whole_side <= u32::MAX) by {
        if whole_side > u32::MAX {
            assert((2 * u) * whole_side >= (2 * u) * 0x1_0000_0000) by (nonlinear_arith)
                requires
                    whole_side >= 0x1_0000_0000,
            ;
            assert(2 * w + u < 2 * (target as nat * u) + 2 * u);
        }
    }
    assert(side == whole_side);
    let su: nat = side * u;
    assert((2 * u) * whole_side == 2 * su) by (nonlinear_arith)
        requires
            whole_side == side,
            su == side * u,
    ;
    assert(2 * su + u > 2 * w);
    assert(su <= 0xffff_ffff * u) by (nonlinear_arith)
        requires
            su == side * u,
            side <= 0xffff_ffff,
    ;
    // and back
    lemma_whole_difference(offset as nat, (offset + side) as nat);
    let m: nat = su * u;
    let v: nat = rounded(m, c);
    let vc: nat = v * c;
    lemma_rounded_error(m, c);
    lemma_quotient_range(m, c, su, u, v);
    let up: int = -((-(v as int)) / (u as int));
    vstd::arithmetic::div_mod::lemma_fundamental_div_mod(-(v as int), u as int);
    assert(up * u >= v) by (nonlinear_arith)
        requires
            -(v as int) == (u as int) * (-up) + (-(v as int)) % (u as int),
            0 <= (-(v as int)) % (u as int),
    ;
    assert(up >= 0) by (nonlinear_arith)
        requires
            up * u >= v,
            v >= 0,
            u > 0,
    ;
    if side > 0 {
        assert(m > c) by (nonlinear_arith)
            requires
                m == su * u,
                su == side * u,
                side >= 1,
                c <= 0x2_0000_0000 * u,
                u > 0x2_0000_0000,
        ;
        assert(v > 0) by {
            if v == 0 {
                assert(vc == 0) by (nonlinear_arith)
                    requires
                        vc == v * c,
                        v == 0,
                ;
            }
        }
        assert(up > 0) by (nonlinear_arith)
            requires
                up * u >= v,
                v > 0,
                u > 0,
        ;
    }
    let edge: int = within(within(up, i64::MIN as int, i64::MAX as int), 0, source as int);
    if edge < source {
        assert(edge == up);
        let missing: int = (source - up) * c;
        let uc: int = up * c;
        assert(uc * u >= vc) by (nonlinear_arith)
            requires
                uc == up * c,
                up * u >= v,
                vc == v * c,
                c >= 0,
        ;
        // in units: how far short of the scaled side the edge falls
        let short: int = su - uc;
        assert(short * u <= m - vc) by (nonlinear_arith)
            requires
                short == su - uc,
                m == su * u,
                uc * u >= vc,
        ;
        assert(0x10_0000 * short <= u) by {
            lemma_short_edge(short, su, m, vc, c, u);
        }
        assert(missing == sc - uc) by (nonlinear_arith)
            requires
                missing == (source - up) * c,
                sc == source as nat * c,
                uc == up * c,
        ;
    } else {
        assert((source - edge) * c == 0) by (nonlinear_arith)
            requires
                edge == source,
        ;
    }
}

/// Rounding `part * u` over `u` moves it by at most one part in 2^20 of `u`, for
/// a part below 2^33 times `u`.
proof fn lemma_error_over_unit(part: nat, u: nat, w: nat)
    requires
        u >= 0x1_0000_0000_0000_0000_0000_0000,
        part <= 0x2_0000_0000 * u,
        w == rounded(part * u, u),
    ensures
        -(u as int) <= 0x10_0000 * (w - part) <= u,
{
    lemma_rounded_gap(part, 1, u);
    assert(1 * u == u && w * 1 == w);
}

proof fn lemma_short_edge(short: int, su: nat, m: nat, vc: nat, c: nat, u: nat)
    requires
        u >= 0x1_0000_0000_0000_0000_0000_0000,
        m == su * u,
        su <= 0xffff_ffff * u,
        c <= 0x2_0000_0000 * u,
        short * u <= m - vc,
        2 * (m - vc) <= c || 0x20_0000_0000_0000 * (m - vc) <= m,
    ensures
        0x10_0000 * short <= u,
{
    if 2 * (m - vc) <= c {
        lemma_mul_inequality_converse(short, 0x2_0000_0000, u as int);
    } else {
        assert((0x20_0000_0000_0000 * short) * u <= su * u) by (nonlinear_arith)
            requires
                short * u <= m - vc,
                0x20_0000_0000_0000 * (m - vc) <= m,
                m == su * u,
        ;
        lemma_mul_inequality_converse(0x20_0000_0000_0000 * short, su as int, u as int);
    }
}

/// The box around the letterboxed picture, where anything is left of it, goes
/// back to a box that starts at the picture's first row and column. At the far
/// sides it leaves out no more of the picture than half a pixel of the model's
/// input, and 2^-19 of it for rounding.
pub proof fn law_inverse_of_letterbox(
    transform: Letterbox,
    source_width: u32,
    source_height: u32,
    target_width: u32,
    target_height: u32,
    row: Seq<Single>,
)
    requires
        source_width > 0,
        source_height > 0,
        target_width > 0,
        target_height > 0,
        transform.fits(
            source_width as nat,
            source_height as nat,
            target_width as nat,
            target_height as nat,
        ),
        row.len() >= 4,
        row[0]@ == whole(transform.left as nat),
        row[1]@ == whole(transform.top as nat),
        row[2]@ == whole((transform.left + transform.resized_width) as nat),
        row[3]@ == whole((transform.top + transform.resized_height) as nat),
    ensures
        transform.resized_width > 0 && transform.resized_height > 0 ==> mapped_box(
            row,
            transform,
            source_width,
            source_height,
        ) is Some,
        mapped_box(row, transform, source_width, source_height) matches Some(bbox) ==> {
            let scale: nat = transform.scale@->units;
            &&& bbox.x == 0
            &&& bbox.y == 0
            &&& 0x8_0000 * ((source_width - bbox.width) * scale) <= 0x4_0001 * one()
            &&& 0x8_0000 * ((source_height - bbox.height) * scale) <= 0x4_0001 * one()
        },
{
    let c: nat = transform.scale@->units;
    lemma_one();
    lemma_fitting_scale(
        source_width as nat,
        source_height as nat,
        target_width as nat,
        target_height as nat,
    );
    lemma_near_edge(transform.left, source_width, c);
    lemma_near_edge(transform.top, source_height, c);
    lemma_far_edge(transform.left, source_width, target_width, c);
    lemma_far_edge(transform.top, source_height, target_height, c);
}

/// At a scale of more than one half, and 2^-19 for rounding, a side of the
/// picture keeps at least one pixel.
proof fn lemma_side_kept(source: u32, target: u32, c: nat)
    requires
        source > 0,
        target > 0,
        c <= rounded((target as nat * one()) * one(), source as nat * one()),
        0x4_0001 * one() < 0x8_0000 * c,
    ensures
        resized_side(source as nat, Number::Finite { negative: false, units: c }) > 0,
{
    let u: nat = one();
    let ratio: nat = rounded((target as nat * u) * u, source as nat * u);
    let sc: nat = source as nat * c;
    let n: nat = (source as nat * u) * c;
    let w: nat = rounded(n, u);
    lemma_one();
    lemma_side_ratio(source as nat, target as nat);
    assert(sc <= ratio * source && c <= sc && n == sc * u) by (nonlinear_arith)
        requires
            sc == source as nat * c,
            n == (source as nat * u) * c,
            c <= ratio,
            source >= 1,
    ;
    assert(target as nat * u <= 0xffff_ffff * u) by (nonlinear_arith)
        requires
            target <= 0xffff_ffff,
    ;
    lemma_error_over_unit(sc, u, w);
    let top: int = (2 * w + u) as int;
    vstd::arithmetic::div_mod::lemma_fundamental_div_mod(top, (2 * u) as int);
    let side: int = top / (2 * u) as int;
    assert(side >= 1) by {
        if side < 1 {
            assert((2 * u) * side <= 0) by (nonlinear_arith)
                requires
                    side <= 0,
                    u >= 0,
            ;
        }
    }
}

/// At a scale of more than one half, and 2^-19 for rounding, the box around the
/// letterboxed picture goes back to the whole picture.
pub proof fn law_picture_recovered(
    transform: Letterbox,
    source_width: u32,
    source_height: u32,
    target_width: u32,
    target_height: u32,
    row: Seq<Single>,
)
    requires
        source_width > 0,
        source_height > 0,
        target_width > 0,
        target_height > 0,
        transform.fits(
            source_width as nat,
            source_height as nat,
            target_width as nat,
            target_height as nat,
        ),
        0x4_0001 * one() < 0x8_0000 * transform.scale@->units,
        row.len() >= 4,
        row[0]@ == whole(transform.left as nat),
        row[1]@ == whole(transform.top as nat),
        row[2]@ == whole((transform.left + transform.resized_width) as nat),
        row[3]@ == whole((transform.top + transform.resized_height) as nat),
    ensures
        mapped_box(row, transform, source_width, source_height) == Some(
            BoundingBox { x: 0, y: 0, width: source_width, height: source_height },
        ),
{
    let c: nat = transform.scale@->units;
    lemma_one();
    lemma_fitting_scale(
        source_width as nat,
        source_height as nat,
        target_width as nat,
        target_height as nat,
    );
    lemma_side_kept(source_width, target_width, c);
    lemma_side_kept(source_height, target_height, c);
    law_inverse_of_letterbox(
        transform,
        source_width,
        source_height,
        target_width,
        target_height,
        row,
    );
    let bbox: BoundingBox = mapped_box(row, transform, source_width, source_height)->0;
    if bbox.width < source_width {
        assert((source_width - bbox.width) * c >= c) by (nonlinear_arith)
            requires
                source_width - bbox.width >= 1,
        ;
    }
    if bbox.height < source_height {
        assert((source_height - bbox.height) * c >= c) by (nonlinear_arith)
            requires
                source_height - bbox.height >= 1,
        ;
    }
}

/// The side of the picture that sets the scale is recovered whole: its scaled
/// length, taken back, reaches the far edge of the picture.
pub proof fn law_filled_side_recovered(offset: u32, source: u32, target: u32)
    requires
        source > 0,
        target > 0,
    ensures
        resized_side(source as nat, side_scale(source as nat, target as nat)) == target,
        edge_after(
            source_coordinate(
                whole((offset + target) as nat),
                offset,
                side_scale(source as nat, target as nat),
            ),
            source,
        ) == source,
{
    let u: nat = one();
    let s: nat = source as nat;
    let t: nat = target as nat;
    let c: nat = rounded((t * u) * u, s * u);
    let gap: int = c * s - t * u;
    lemma_one();
    lemma_side_ratio(s, t);
    lemma_ratio_positive(s, t);
    lemma_resized_side(s, t, c);
    lemma_whole_difference(offset as nat, (offset + target) as nat);
    lemma_ratio_gap(s, t);
    let tu: nat = t * u;
    let m: nat = tu * u;
    let v: nat = rounded(m, c);
    let vc: nat = v * c;
    lemma_rounded_error(m, c);
    assert(c * s <= 0xffff_ffff * c) by (nonlinear_arith)
        requires
            s <= 0xffff_ffff,
    ;
    assert(tu <= 0xffff_ffff * u) by (nonlinear_arith)
        requires
            tu == t * u,
            t <= 0xffff_ffff,
    ;
    // the quotient passes the last pixel's near edge
    let cu: nat = c * u;
    assert(m <= 0x1_0000_0000 * cu) by (nonlinear_arith)
        requires
            m == tu * u,
            tu <= 0x1_0000_0000 * c,
            cu == c * u,
    ;
    assert(cu >= 0x1_0000_0000_0000_0000 * c) by (nonlinear_arith)
        requires
            cu == c * u,
            u >= 0x1_0000_0000_0000_0000,
    ;
    assert(0x10_0000 * (m - vc) <= cu);
    let before: int = (s - 1) * u;
    assert(before * c == m + gap * u - cu) by (nonlinear_arith)
        requires
            before == (s - 1) * u,
            gap == c * s - tu,
            m == tu * u,
            cu == c * u,
    ;
    assert(0x10_0000 * (gap * u) <= cu) by (nonlinear_arith)
        requires
            0x10_0000 * gap <= c,
            cu == c * u,
            u >= 0,
    ;
    assert(v > before) by (nonlinear_arith)
        requires
            before * c < vc,
            vc == v * c,
            c > 0,
    ;
    assert(v < pow2(2098)) by {
        lemma_quotient_range(m, c, tu, u, v);
    }
    let up: int = -((-(v as int)) / (u as int));
    vstd::arithmetic::div_mod::lemma_fundamental_div_mod(-(v as int), u as int);
    assert(up > s - 1) by (nonlinear_arith)
        requires
            -(v as int) == (u as int) * (-up) + (-(v as int)) % (u as int),
            0 <= (-(v as int)) % (u as int),
            v > (s - 1) * u,
            u > 0,
    ;
}

/// The ratio of two sides misses the exact one by less than its 2^20th part.
proof fn lemma_ratio_gap(source: nat, target: nat)
    requires
        0 < source <= u32::MAX,
        0 < target <= u32::MAX,
    ensures
        ({
            let ratio: nat = rounded((target * one()) * one(), source * one());
            let gap: int = ratio * source - target * one();
            -(ratio as int) <= 0x10_0000 * gap <= ratio
        }),
{
    let ratio: nat = rounded((target * one()) * one(), source * one());
    lemma_one();
    lemma_ratio_positive(source, target);
    lemma_rounded_gap(target * one(), source, one());
    assert(ratio * source <= 0x1_0000_0000 * ratio) by (nonlinear_arith)
        requires
            source <= 0x1_0000_0000,
    ;
}

/// A quotient by a scale that is not tiny is finite.
proof fn lemma_quotient_range(m: nat, c: nat, part: nat, u: nat, v: nat)
    requires
        u == one(),
        c > 0,
        m == part * u,
        part <= 0xffff_ffff * u,
        u <= 0x2_0000_0000 * c,
        v == rounded(m, c),
    ensures
        v < pow2(2098),
{
    let vc: nat = v * c;
    lemma_rounded_error(m, c);
    assert(m <= part * (0x2_0000_0000 * c)) by (nonlinear_arith)
        requires
            m == part * u,
            u <= 0x2_0000_0000 * c,
    ;
    if v > 0x4_0000_0000 * part + 1 {
        assert(vc >= (0x4_0000_0000 * part + 2) * c) by (nonlinear_arith)
            requires
                vc == v * c,
                v >= 0x4_0000_0000 * part + 2,
        ;
        assert((0x4_0000_0000 * part + 2) * c == 0x4_0000_0000 * (part * c) + 2 * c)
            by (nonlinear_arith);
        assert(part * (0x2_0000_0000 * c) == 0x2_0000_0000 * (part * c)) by (nonlinear_arith);
    }
    lemma_one();
    lemma2_to64();
    lemma2_to64_rest();
    lemma_pow2_adds(1074, 64);
    lemma_pow2_adds(1138, 4);
    lemma_pow2_strictly_increases(1142, 2098);
}

/// A box that `map_box` gives is not empty and lies in the picture.
pub proof fn law_mapped_box_in_picture(
    row: Seq<Single>,
    transform: Letterbox,
    source_width: u32,
    source_height: u32,
)
    ensures
        mapped_box(row, transform, source_width, source_height) matches Some(bbox) ==> {
            &&& bbox.width > 0
            &&& bbox.height > 0
            &&& bbox.x + bbox.width <= source_width
            &&& bbox.y + bbox.height <= source_height
        },
{
}

/// A box of the picture is tight around the box of the input. Its near edges are the
/// last pixel edges up to the near corner, taken back, and its far edges the first
/// ones from the far corner on, each kept within the picture. There is no box
/// exactly where such edges enclose no pixel.
pub proof fn law_mapped_box_is_tight(
    row: Seq<Single>,
    transform: Letterbox,
    source_width: u32,
    source_height: u32,
)
    ensures
        ({
            let scale: Number = transform.scale@;
            let across: Number = whole(transform.left as nat);
            let down: Number = whole(transform.top as nat);
            let x1: Number = row[0]@.minus(across).over(scale);
            let y1: Number = row[1]@.minus(down).over(scale);
            let x2: Number = row[2]@.minus(across).over(scale);
            let y2: Number = row[3]@.minus(down).over(scale);
            match mapped_box(row, transform, source_width, source_height) {
                Some(bbox) => {
                    &&& bbox.width > 0 && bbox.height > 0
                    &&& is_floor(x1, bbox.x as int, 0, source_width as int, 0)
                    &&& is_floor(y1, bbox.y as int, 0, source_height as int, 0)
                    &&& is_ceiling(x2, bbox.x + bbox.width, 0, source_width as int, 0)
                    &&& is_ceiling(y2, bbox.y + bbox.height, 0, source_height as int, 0)
                },
                None => forall|left: int, top: int, right: int, bottom: int|
                    #![trigger is_floor(x1, left, 0, source_width as int, 0), is_floor(y1, top, 0, source_height as int, 0), is_ceiling(x2, right, 0, source_width as int, 0), is_ceiling(y2, bottom, 0, source_height as int, 0)]
                    is_floor(x1, left, 0, source_width as int, 0) && is_floor(
                        y1,
                        top,
                        0,
                        source_height as int,
                        0,
                    ) && is_ceiling(x2, right, 0, source_width as int, 0) && is_ceiling(
                        y2,
                        bottom,
                        0,
                        source_height as int,
                        0,
                    ) ==> right <= left || bottom <= top,
            }
        }),
{
    let scale: Number = transform.scale@;
    let x1: Number = source_coordinate(row[0]@, transform.left, scale);
    let y1: Number = source_coordinate(row[1]@, transform.top, scale);
    let x2: Number = source_coordinate(row[2]@, transform.left, scale);
    let y2: Number = source_coordinate(row[3]@, transform.top, scale);
    law_floor(x1, 0, source_width as int);
    law_floor(y1, 0, source_height as int);
    law_ceiling(x2, 0, source_width as int);
    law_ceiling(y2, 0, source_height as int);
    assert forall|left: int, top: int, right: int, bottom: int|
        #![trigger is_floor(x1, left, 0, source_width as int, 0), is_floor(y1, top, 0, source_height as int, 0), is_ceiling(x2, right, 0, source_width as int, 0), is_ceiling(y2, bottom, 0, source_height as int, 0)]
        is_floor(x1, left, 0, source_width as int, 0) && is_floor(
            y1,
            top,
            0,
            source_height as int,
            0,
        ) && is_ceiling(x2, right, 0, source_width as int, 0) && is_ceiling(
            y2,
            bottom,
            0,
            source_height as int,
            0,
        ) implies left == edge_before(x1, source_width) && top == edge_before(y1, source_height)
        && right == edge_after(x2, source_width) && bottom == edge_after(y2, source_height) by {
        lemma_one_floor(x1, left, edge_before(x1, source_width), source_width as int);
        lemma_one_floor(y1, top, edge_before(y1, source_height), source_height as int);
        lemma_one_ceiling(x2, right, edge_after(x2, source_width), source_width as int);
        lemma_one_ceiling(y2, bottom, edge_after(y2, source_height), source_height as int);
    }
}

/// There is one last pixel edge up to a coordinate.
proof fn lemma_one_floor(number: Number, a: int, b: int, side: int)
    requires
        is_floor(number, a, 0, side, 0),
        is_floor(number, b, 0, side, 0),
    ensures
        a == b,
{
    let u: int = pow2(1074) as int;
    lemma_pow2_pos(1074);
    assert(a < b ==> (a + 1) * u <= b * u) by (nonlinear_arith)
        requires
            u > 0,
    ;
    assert(b < a ==> (b + 1) * u <= a * u) by (nonlinear_arith)
        requires
            u > 0,
    ;
}

/// There is one first pixel edge from a coordinate on.
proof fn lemma_one_ceiling(number: Number, a: int, b: int, side: int)
    requires
        is_ceiling(number, a, 0, side, 0),
        is_ceiling(number, b, 0, side, 0),
    ensures
        a == b,
{
    let u: int = pow2(1074) as int;
    lemma_pow2_pos(1074);
    assert(a < b ==> a * u <= (b - 1) * u) by (nonlinear_arith)
        requires
            u > 0,
    ;
    assert(b < a ==> b * u <= (a - 1) * u) by (nonlinear_arith)
        requires
            u > 0,
    ;
}

/// The part of the prototype grid that a box covers is tight around it, and holds at
/// least one cell. Its first column is the last one up to the near side of the box,
/// taken to the grid, and it ends at the first one from the far side on, each kept
/// within the grid; the same holds of its rows.
pub proof fn law_crop_window_is_tight(
    bbox: BoundingBox,
    transform: Letterbox,
    proto_width: i64,
    proto_height: i64,
    input_width: u32,
    input_height: u32,
)
    requires
        proto_width > 0,
        proto_height > 0,
    ensures
        ({
            let ((x0, x1), (y0, y1)) = covered_window(
                bbox,
                transform,
                proto_width,
                proto_height,
                input_width,
                input_height,
            );
            let scale: Number = transform.scale@;
            let fx: Number = Number::Finite {
                negative: false,
                units: rounded(proto_width as nat * pow2(1074), 1),
            }.over(whole(input_width as nat));
            let fy: Number = Number::Finite {
                negative: false,
                units: rounded(proto_height as nat * pow2(1074), 1),
            }.over(whole(input_height as nat));
            let near_x: Number = whole(transform.left as nat).plus(
                whole(bbox.x as nat).times(scale),
            ).times(fx);
            let far_x: Number = whole(transform.left as nat).plus(
                whole((bbox.x + bbox.width) as nat).times(scale),
            ).times(fx);
            let near_y: Number = whole(transform.top as nat).plus(
                whole(bbox.y as nat).times(scale),
            ).times(fy);
            let far_y: Number = whole(transform.top as nat).plus(
                whole((bbox.y + bbox.height) as nat).times(scale),
            ).times(fy);
            &&& 0 <= x0 < x1 <= proto_width
            &&& 0 <= y0 < y1 <= proto_height
            &&& is_floor(near_x, x0, 0, proto_width - 1, 0)
            &&& is_floor(near_y, y0, 0, proto_height - 1, 0)
            &&& is_ceiling(far_x, x1, x0 + 1, proto_width as int, x0 + 1)
            &&& is_ceiling(far_y, y1, y0 + 1, proto_height as int, y0 + 1)
        }),
{
    lemma_cells_finite(proto_width);
    lemma_cells_finite(proto_height);
    lemma_covered_cells(
        bbox.x as nat,
        (bbox.x + bbox.width) as nat,
        transform.left,
        transform.scale@,
        proto_width,
        input_width,
    );
    lemma_covered_cells(
        bbox.y as nat,
        (bbox.y + bbox.height) as nat,
        transform.top,
        transform.scale@,
        proto_height,
        input_height,
    );
}

/// A number of cells is finite.
proof fn lemma_cells_finite(cells: i64)
    requires
        cells > 0,
    ensures
        rounded(cells as nat * pow2(1074), 1) < pow2(2098),
{
    let u: nat = pow2(1074);
    let count: nat = cells as nat;
    let n: nat = count * u;
    lemma_one();
    lemma2_to64();
    lemma_rounded_error(n, 1);
    assert(n <= 0x1_0000_0000_0000_0000 * u) by (nonlinear_arith)
        requires
            n == count * u,
            count <= 0x1_0000_0000_0000_0000,
    ;
    lemma_pow2_adds(64, 1074);
    lemma_pow2_adds(1138, 1);
    lemma_pow2_strictly_increases(1139, 2098);
    let v: nat = rounded(n, 1);
    assert(v * 1 == v);
}

proof fn lemma_covered_cells(
    low: nat,
    high: nat,
    offset: u32,
    scale: Number,
    cells: i64,
    input: u32,
)
    requires
        cells > 0,
    ensures
        ({
            let (first, end) = covered_cells(low, high, offset, scale, cells, input);
            &&& 0 <= first < end <= cells
            &&& is_floor(
                grid_coordinate(low, offset, scale, cells, input),
                first,
                0,
                cells - 1,
                0,
            )
            &&& is_ceiling(
                grid_coordinate(high, offset, scale, cells, input),
                end,
                first + 1,
                cells as int,
                first + 1,
            )
        }),
{
    let u: int = pow2(1074) as int;
    lemma_pow2_pos(1074);
    let (first, end) = covered_cells(low, high, offset, scale, cells, input);
    let far: Number = grid_coordinate(high, offset, scale, cells, input);
    law_floor(grid_coordinate(low, offset, scale, cells, input), 0, cells - 1);
    law_ceiling(far, 0, cells as int);
    let inner: int = far.ceil_within(0, cells as int);
    assert(inner < end ==> inner * u <= end * u) by (nonlinear_arith)
        requires
            u > 0,
    ;
}

/// The scale is one of the two ratios of the input to the picture, and neither ratio
/// is below it. Each side is scaled to the nearest whole number of pixels. With the
/// padding it makes up the input, and of the two margins the far one is the larger,
/// by at most one pixel.
pub proof fn law_letterbox_formula(
    transform: Letterbox,
    source_width: u32,
    source_height: u32,
    target_width: u32,
    target_height: u32,
)
    requires
        transform.fits(
            source_width as nat,
            source_height as nat,
            target_width as nat,
            target_height as nat,
        ),
    ensures
        ({
            let scale: Number = transform.scale@;
            let across: Number = whole(target_width as nat).over(whole(source_width as nat));
            let down: Number = whole(target_height as nat).over(whole(source_height as nat));
            &&& scale == across || scale == down
            &&& !across.below(scale) && !down.below(scale)
            &&& scale is NotANumber ==> across is NotANumber && down is NotANumber
            &&& is_nearest(
                whole(source_width as nat).times(scale),
                transform.resized_width as int,
                0,
                u32::MAX as int,
            )
            &&& is_nearest(
                whole(source_height as nat).times(scale),
                transform.resized_height as int,
                0,
                u32::MAX as int,
            )
            &&& transform.left + transform.resized_width + transform.right == target_width
            &&& transform.top + transform.resized_height + transform.bottom == target_height
            &&& 0 <= transform.right - transform.left <= 1
            &&& 0 <= transform.bottom - transform.top <= 1
        }),
{
    let scale: Number = transform.scale@;
    law_picture_fits_input(
        source_width as nat,
        source_height as nat,
        target_width as nat,
        target_height as nat,
    );
    law_smaller_of_two(
        side_scale(source_width as nat, target_width as nat),
        side_scale(source_height as nat, target_height as nat),
    );
    law_round(whole(source_width as nat).times(scale), 0, u32::MAX as int);
    law_round(whole(source_height as nat).times(scale), 0, u32::MAX as int);
}

} // verus!
