//! Drawing detections onto a picture.
use crate::detection::{decoded_rows, law_decoded_rows, Candidate, Detection};
use crate::geometry::{BoundingBox, Letterbox};
use crate::number::{within, Number};
use crate::picture::{
    canvas_height, canvas_width, picture_height, picture_width, pixels, rgb_pixels, Canvas,
};
use crate::single::Single;
use vstd::prelude::*;

verus! {

/// A channel of the color of a class: a multiple of the class and an offset,
/// both kept within 64 bits, modulo 256.
pub open spec fn class_channel(class_id: i64, multiplier: int, offset: int) -> u8 {
    (within(
        within(multiplier * class_id, i64::MIN as int, i64::MAX as int) + offset,
        i64::MIN as int,
        i64::MAX as int,
    ) % 256) as u8
}

/// The color in which the objects of a class are drawn.
pub open spec fn class_color(class_id: i64) -> (u8, u8, u8) {
    (
        class_channel(class_id, 29, 97),
        class_channel(class_id, 17, 149),
        class_channel(class_id, 37, 53),
    )
}

/// A number, kept within 64 bits.
fn saturate(value: i128) -> (kept: i128)
    ensures
        kept == within(value as int, i64::MIN as int, i64::MAX as int),
{
    if value < i64::MIN as i128 {
        i64::MIN as i128
    } else if value > i64::MAX as i128 {
        i64::MAX as i128
    } else {
        value
    }
}

fn channel(class_id: i64, multiplier: i64, offset: i64) -> (value: u8)
    requires
        0 <= multiplier <= 255,
        0 <= offset <= 255,
    ensures
        value == class_channel(class_id, multiplier as int, offset as int),
{
    let factor: i128 = multiplier as i128;
    let class: i128 = class_id as i128;
    proof {
        assert(-0x1_0000_0000_0000_0000_0000 <= factor * class <= 0x1_0000_0000_0000_0000_0000)
            by (nonlinear_arith)
            requires
                0 <= factor <= 255,
                -0x8000_0000_0000_0000 <= class <= 0x7fff_ffff_ffff_ffff,
        ;
    }
    let sum: i128 = saturate(saturate(factor * class) + offset as i128);
    // Adding a multiple of 256 makes the number positive.
    let positive: i128 = sum + 0x8000_0000_0000_0000;
    (positive % 256) as u8
}

/// The color in which the objects of a class are drawn.
pub fn color_for_class(class_id: i64) -> (color: (u8, u8, u8))
    ensures
        color == class_color(class_id),
{
    (channel(class_id, 29, 97), channel(class_id, 17, 149), channel(class_id, 37, 53))
}

/// The picture with the cells of a region in one color.
pub open spec fn painted(
    picture: Map<(int, int), (u8, u8, u8)>,
    region: Set<(int, int)>,
    color: (u8, u8, u8),
) -> Map<(int, int), (u8, u8, u8)> {
    picture.union_prefer_right(
        Map::new(|cell: (int, int)| region.contains(cell), |cell: (int, int)| color),
    )
}

/// The last column or row of a side of a box.
pub open spec fn last_cell(start: u32, length: u32) -> int {
    start + length - 1
}

/// The cells of the frame that lies `offset` cells inside the edge of a box, as
/// far as there are that many.
pub open spec fn frame(bbox: BoundingBox, offset: int) -> Set<(int, int)> {
    let right: int = last_cell(bbox.x, bbox.width);
    let bottom: int = last_cell(bbox.y, bbox.height);
    let x0: int = if bbox.x + offset < right { bbox.x + offset } else { right };
    let y0: int = if bbox.y + offset < bottom { bbox.y + offset } else { bottom };
    let x1: int = if right - offset > x0 { right - offset } else { x0 };
    let y1: int = if bottom - offset > y0 { bottom - offset } else { y0 };
    Set::new(
        |cell: (int, int)|
            {
                ||| x0 <= cell.0 <= x1 && (cell.1 == y0 || cell.1 == y1)
                ||| y0 <= cell.1 <= y1 && (cell.0 == x0 || cell.0 == x1)
            },
    )
}

/// The cells of the frame of a box, from its edge inwards.
pub open spec fn frames(bbox: BoundingBox, thickness: nat) -> Set<(int, int)> {
    Set::new(
        |cell: (int, int)|
            exists|offset: int|
                0 <= offset < thickness && #[trigger] frame(bbox, offset).contains(cell),
    )
}

/// The last column and row of a box are cells of a picture of this size.
pub open spec fn frame_fits(bbox: BoundingBox, width: u32, height: u32) -> bool {
    &&& 0 <= last_cell(bbox.x, bbox.width) < width
    &&& 0 <= last_cell(bbox.y, bbox.height) < height
}

proof fn lemma_painted_twice(
    picture: Map<(int, int), (u8, u8, u8)>,
    first: Set<(int, int)>,
    second: Set<(int, int)>,
    color: (u8, u8, u8),
)
    ensures
        painted(painted(picture, first, color), second, color) == painted(
            picture,
            first.union(second),
            color,
        ),
{
    assert(painted(painted(picture, first, color), second, color) =~= painted(
        picture,
        first.union(second),
        color,
    ));
}

proof fn lemma_painted_cell(
    picture: Map<(int, int), (u8, u8, u8)>,
    region: Set<(int, int)>,
    cell: (int, int),
    color: (u8, u8, u8),
)
    ensures
        painted(picture, region, color).insert(cell, color) == painted(
            picture,
            region.insert(cell),
            color,
        ),
{
    assert(painted(picture, region, color).insert(cell, color) =~= painted(
        picture,
        region.insert(cell),
        color,
    ));
}

/// The cells of two lines that run down the columns `p` and `q`, or else across
/// the rows `p` and `q`, from `start` until before `end`.
spec fn line_pair(down: bool, start: int, end: int, p: int, q: int) -> Set<(int, int)> {
    Set::new(
        |cell: (int, int)|
            {
                let (along, beside): (int, int) = if down {
                    (cell.1, cell.0)
                } else {
                    cell
                };
                start <= along < end && (beside == p || beside == q)
            },
    )
}

/// Draws two lines, down the columns `p` and `q` or across the rows `p` and `q`,
/// from `first` to `last`.
fn draw_lines(
    canvas: &mut Canvas,
    down: bool,
    first: u32,
    last: u32,
    p: u32,
    q: u32,
    color: (u8, u8, u8),
)
    requires
        first <= last,
        down ==> last < canvas_height(*old(canvas)) && p < canvas_width(*old(canvas)) && q
            < canvas_width(*old(canvas)),
        !down ==> last < canvas_width(*old(canvas)) && p < canvas_height(*old(canvas)) && q
            < canvas_height(*old(canvas)),
    ensures
        pixels(*final(canvas)) == painted(
            pixels(*old(canvas)),
            line_pair(down, first as int, last + 1, p as int, q as int),
            color,
        ),
        canvas_width(*final(canvas)) == canvas_width(*old(canvas)),
        canvas_height(*final(canvas)) == canvas_height(*old(canvas)),
{
    let ghost before: Map<(int, int), (u8, u8, u8)> = pixels(*canvas);
    let mut i: u32 = first;
    proof {
        assert(painted(
            before,
            line_pair(down, first as int, first as int, p as int, q as int),
            color,
        ) =~= before);
    }
    while i <= last
        invariant
            first <= i <= last + 1,
            down ==> last < canvas_height(*canvas) && p < canvas_width(*canvas) && q
                < canvas_width(*canvas),
            !down ==> last < canvas_width(*canvas) && p < canvas_height(*canvas) && q
                < canvas_height(*canvas),
            canvas_width(*canvas) == canvas_width(*old(canvas)),
            canvas_height(*canvas) == canvas_height(*old(canvas)),
            pixels(*canvas) == painted(
                before,
                line_pair(down, first as int, i as int, p as int, q as int),
                color,
            ),
        decreases last + 1 - i,
    {
        let (x0, y0): (u32, u32) = if down {
            (p, i)
        } else {
            (i, p)
        };
        let (x1, y1): (u32, u32) = if down {
            (q, i)
        } else {
            (i, q)
        };
        canvas.put_pixel(x0, y0, color);
        canvas.put_pixel(x1, y1, color);
        proof {
            let region: Set<(int, int)> = line_pair(
                down,
                first as int,
                i as int,
                p as int,
                q as int,
            );
            let one: (int, int) = (x0 as int, y0 as int);
            let other: (int, int) = (x1 as int, y1 as int);
            lemma_painted_cell(before, region, one, color);
            lemma_painted_cell(before, region.insert(one), other, color);
            assert(line_pair(down, first as int, i + 1, p as int, q as int) =~= region.insert(
                one,
            ).insert(other));
        }
        i = i + 1;
    }
}

/// The first and the last cell of a side of a frame.
fn frame_side(start: u32, last: u32, offset: u32) -> (side: (u32, u32))
    requires
        start + offset <= u32::MAX,
    ensures
        side.0 == if start + offset < last { start + offset } else { last as int },
        side.1 == if last - offset > side.0 { last - offset } else { side.0 as int },
{
    let shifted: u32 = start + offset;
    let first: u32 = if shifted < last { shifted } else { last };
    let end: u32 = if last >= offset && last - offset > first { last - offset } else { first };
    (first, end)
}

/// Draws the frame of a box.
pub fn draw_box(canvas: &mut Canvas, bbox: BoundingBox, color: (u8, u8, u8), thickness: u32)
    requires
        1 <= bbox.x + bbox.width <= u32::MAX,
        1 <= bbox.y + bbox.height <= u32::MAX,
        thickness > 0 ==> frame_fits(bbox, canvas_width(*old(canvas)), canvas_height(*old(canvas))),
        bbox.x + thickness <= u32::MAX + 1,
        bbox.y + thickness <= u32::MAX + 1,
    ensures
        pixels(*final(canvas)) == painted(
            pixels(*old(canvas)),
            frames(bbox, thickness as nat),
            color,
        ),
        canvas_width(*final(canvas)) == canvas_width(*old(canvas)),
        canvas_height(*final(canvas)) == canvas_height(*old(canvas)),
{
    let right: u32 = bbox.x + bbox.width - 1;
    let bottom: u32 = bbox.y + bbox.height - 1;
    let ghost before: Map<(int, int), (u8, u8, u8)> = pixels(*canvas);
    let mut offset: u32 = 0;
    proof {
        assert(painted(before, frames(bbox, 0), color) =~= before);
    }
    while offset < thickness
        invariant
            offset <= thickness,
            right == last_cell(bbox.x, bbox.width),
            bottom == last_cell(bbox.y, bbox.height),
            thickness > 0 ==> frame_fits(bbox, canvas_width(*canvas), canvas_height(*canvas)),
            bbox.x + thickness <= u32::MAX + 1,
            bbox.y + thickness <= u32::MAX + 1,
            canvas_width(*canvas) == canvas_width(*old(canvas)),
            canvas_height(*canvas) == canvas_height(*old(canvas)),
            pixels(*canvas) == painted(before, frames(bbox, offset as nat), color),
        decreases thickness - offset,
    {
        let (x0, x1): (u32, u32) = frame_side(bbox.x, right, offset);
        let (y0, y1): (u32, u32) = frame_side(bbox.y, bottom, offset);
        draw_lines(canvas, false, x0, x1, y0, y1, color);
        draw_lines(canvas, true, y0, y1, x0, x1, color);
        proof {
            let drawn: Set<(int, int)> = frames(bbox, offset as nat);
            let across: Set<(int, int)> = line_pair(
                false,
                x0 as int,
                x1 + 1,
                y0 as int,
                y1 as int,
            );
            let down: Set<(int, int)> = line_pair(true, y0 as int, y1 + 1, x0 as int, x1 as int);
            lemma_painted_twice(before, drawn, across, color);
            lemma_painted_twice(before, drawn.union(across), down, color);
            lemma_frames_step(bbox, offset as nat);
            assert(drawn.union(across).union(down) =~= drawn.union(frame(bbox, offset as int)));
        }
        offset = offset + 1;
    }
}

proof fn lemma_frames_step(bbox: BoundingBox, offset: nat)
    ensures
        frames(bbox, offset + 1) == frames(bbox, offset).union(frame(bbox, offset as int)),
{
    assert forall|cell: (int, int)|
        frames(bbox, offset + 1).contains(cell) == frames(bbox, offset).union(
            frame(bbox, offset as int),
        ).contains(cell) by {
        if frame(bbox, offset as int).contains(cell) {
            assert(frames(bbox, offset + 1).contains(cell));
        }
        if frames(bbox, offset).contains(cell) {
            let inner: int = choose|inner: int|
                0 <= inner < offset && #[trigger] frame(bbox, inner).contains(cell);
            assert(0 <= inner < offset + 1 && frame(bbox, inner).contains(cell));
        }
    }
    assert(frames(bbox, offset + 1) =~= frames(bbox, offset).union(frame(bbox, offset as int)));
}

/// A color halfway between two others.
pub open spec fn blended(color: (u8, u8, u8), other: (u8, u8, u8)) -> (u8, u8, u8) {
    (
        ((color.0 + other.0) / 2) as u8,
        ((color.1 + other.1) / 2) as u8,
        ((color.2 + other.2) / 2) as u8,
    )
}

/// The picture with the cells of a region blended with a color.
pub open spec fn tinted(
    picture: Map<(int, int), (u8, u8, u8)>,
    region: Set<(int, int)>,
    color: (u8, u8, u8),
) -> Map<(int, int), (u8, u8, u8)> {
    picture.union_prefer_right(
        Map::new(
            |cell: (int, int)| region.contains(cell),
            |cell: (int, int)| blended(picture[cell], color),
        ),
    )
}

/// The cell lies in the box.
pub open spec fn in_box(bbox: BoundingBox, cell: (int, int)) -> bool {
    &&& bbox.x <= cell.0 < bbox.x + bbox.width
    &&& bbox.y <= cell.1 < bbox.y + bbox.height
}

/// The cells of the box of a detection where its mask is set. Where the mask is
/// too short for its box, what is missing is not set.
pub open spec fn masked_cells(bbox: BoundingBox, mask: Seq<u8>) -> Set<(int, int)> {
    Set::new(
        |cell: (int, int)|
            {
                let index: int = (cell.1 - bbox.y) * bbox.width + (cell.0 - bbox.x);
                in_box(bbox, cell) && index < mask.len() && mask[index] != 0
            },
    )
}

/// The picture with a detection drawn onto it: its mask blended with the color
/// of its class, and a frame of two pixels in that color.
pub open spec fn drawn(
    picture: Map<(int, int), (u8, u8, u8)>,
    detection: Detection,
) -> Map<(int, int), (u8, u8, u8)> {
    let color: (u8, u8, u8) = class_color(detection.class_id);
    painted(
        tinted(picture, masked_cells(detection.bbox, detection.mask@), color),
        frames(detection.bbox, 2),
        color,
    )
}

/// The picture with the detections drawn onto it, one after the other.
pub open spec fn rendered(
    picture: Map<(int, int), (u8, u8, u8)>,
    detections: Seq<Detection>,
) -> Map<(int, int), (u8, u8, u8)>
    decreases detections.len(),
{
    if detections.len() == 0 {
        picture
    } else {
        drawn(rendered(picture, detections.drop_last()), detections.last())
    }
}

/// A detection can be drawn onto a picture of this size: its box ends in the
/// picture, and the cells of the box can be counted in 32 bits.
pub open spec fn can_draw(bbox: BoundingBox, width: u32, height: u32) -> bool {
    &&& frame_fits(bbox, width, height)
    &&& bbox.x < u32::MAX
    &&& bbox.y < u32::MAX
    &&& bbox.width * bbox.height <= 0x1_0000_0000
}

proof fn lemma_tinted_cell(
    picture: Map<(int, int), (u8, u8, u8)>,
    region: Set<(int, int)>,
    cell: (int, int),
    color: (u8, u8, u8),
)
    requires
        !region.contains(cell),
        tinted(picture, region, color).dom().contains(cell),
    ensures
        picture[cell] == tinted(picture, region, color)[cell],
        tinted(picture, region, color).insert(cell, blended(picture[cell], color)) == tinted(
            picture,
            region.insert(cell),
            color,
        ),
{
    assert(tinted(picture, region, color).insert(cell, blended(picture[cell], color)) =~= tinted(
        picture,
        region.insert(cell),
        color,
    ));
}

/// A color halfway between two others.
fn blend(color: (u8, u8, u8), other: (u8, u8, u8)) -> (result: (u8, u8, u8))
    ensures
        result == blended(color, other),
{
    (
        ((color.0 as u16 + other.0 as u16) / 2) as u8,
        ((color.1 as u16 + other.1 as u16) / 2) as u8,
        ((color.2 as u16 + other.2 as u16) / 2) as u8,
    )
}

/// Blends the cells under a mask with a color.
fn draw_mask(canvas: &mut Canvas, bbox: BoundingBox, mask: &Vec<u8>, color: (u8, u8, u8))
    requires
        can_draw(bbox, canvas_width(*old(canvas)), canvas_height(*old(canvas))),
    ensures
        pixels(*final(canvas)) == tinted(
            pixels(*old(canvas)),
            masked_cells(bbox, mask@),
            color,
        ),
        canvas_width(*final(canvas)) == canvas_width(*old(canvas)),
        canvas_height(*final(canvas)) == canvas_height(*old(canvas)),
{
    let ghost before: Map<(int, int), (u8, u8, u8)> = pixels(*canvas);
    let ghost cells: Set<(int, int)> = masked_cells(bbox, mask@);
    let ghost mut region: Set<(int, int)> = Set::empty();
    proof {
        assert(tinted(before, region, color) =~= before);
    }
    let mut local_y: u32 = 0;
    while local_y < bbox.height
        invariant
            local_y <= bbox.height,
            can_draw(bbox, canvas_width(*canvas), canvas_height(*canvas)),
            canvas_width(*canvas) == canvas_width(*old(canvas)),
            canvas_height(*canvas) == canvas_height(*old(canvas)),
            cells == masked_cells(bbox, mask@),
            forall|cell: (int, int)|
                region.contains(cell) == (cells.contains(cell) && cell.1 < bbox.y + local_y),
            pixels(*canvas) == tinted(before, region, color),
        decreases bbox.height - local_y,
    {
        let mut local_x: u32 = 0;
        while local_x < bbox.width
            invariant
                local_x <= bbox.width,
                local_y < bbox.height,
                can_draw(bbox, canvas_width(*canvas), canvas_height(*canvas)),
                canvas_width(*canvas) == canvas_width(*old(canvas)),
                canvas_height(*canvas) == canvas_height(*old(canvas)),
                cells == masked_cells(bbox, mask@),
                forall|cell: (int, int)|
                    region.contains(cell) == (cells.contains(cell) && (cell.1 < bbox.y + local_y
                        || (cell.1 == bbox.y + local_y && cell.0 < bbox.x + local_x))),
                pixels(*canvas) == tinted(before, region, color),
            decreases bbox.width - local_x,
        {
            proof {
                assert(local_y * bbox.width + local_x < bbox.width * bbox.height)
                    by (nonlinear_arith)
                    requires
                        local_y < bbox.height,
                        local_x < bbox.width,
                ;
                assert(0 <= local_y * bbox.width) by (nonlinear_arith);
            }
            let index: usize = (local_y * bbox.width + local_x) as usize;
            let ghost cell: (int, int) = (bbox.x + local_x, bbox.y + local_y);
            proof {
                assert((cell.1 - bbox.y) * bbox.width + (cell.0 - bbox.x) == index);
                assert(cells.contains(cell) == (index < mask@.len() && mask@[index as int] != 0));
            }
            if index < mask.len() && mask[index] != 0 {
                let pixel: (u8, u8, u8) = canvas.get_pixel(bbox.x + local_x, bbox.y + local_y);
                proof {
                    lemma_tinted_cell(before, region, cell, color);
                    region = region.insert(cell);
                }
                canvas.put_pixel(bbox.x + local_x, bbox.y + local_y, blend(pixel, color));
            }
            local_x = local_x + 1;
        }
        local_y = local_y + 1;
    }
    proof {
        assert(region =~= cells);
    }
}

/// Draws detections onto a picture, one after the other.
pub fn draw_detections(canvas: &mut Canvas, detections: &[Detection])
    requires
        forall|i: int|
            0 <= i < detections@.len() ==> can_draw(
                (#[trigger] detections@[i]).bbox,
                canvas_width(*old(canvas)),
                canvas_height(*old(canvas)),
            ),
    ensures
        pixels(*final(canvas)) == rendered(pixels(*old(canvas)), detections@),
        canvas_width(*final(canvas)) == canvas_width(*old(canvas)),
        canvas_height(*final(canvas)) == canvas_height(*old(canvas)),
{
    let ghost before: Map<(int, int), (u8, u8, u8)> = pixels(*canvas);
    let mut i: usize = 0;
    while i < detections.len()
        invariant
            i <= detections@.len(),
            forall|i: int|
                0 <= i < detections@.len() ==> can_draw(
                    (#[trigger] detections@[i]).bbox,
                    canvas_width(*canvas),
                    canvas_height(*canvas),
                ),
            canvas_width(*canvas) == canvas_width(*old(canvas)),
            canvas_height(*canvas) == canvas_height(*old(canvas)),
            pixels(*canvas) == rendered(before, detections@.take(i as int)),
        decreases detections@.len() - i,
    {
        let detection: &Detection = &detections[i];
        let color: (u8, u8, u8) = color_for_class(detection.class_id);
        draw_mask(canvas, detection.bbox, &detection.mask, color);
        draw_box(canvas, detection.bbox, color, 2);
        proof {
            assert(detections@.take(i + 1).drop_last() =~= detections@.take(i as int));
            assert(detections@.take(i + 1).last() == detection);
        }
        i = i + 1;
    }
    proof {
        assert(detections@.take(i as int) =~= detections@);
    }
}

/// A copy of the picture with the detections drawn onto it.
pub fn render(source: &image::DynamicImage, detections: &[Detection]) -> (picture:
    image::DynamicImage)
    requires
        forall|i: int|
            0 <= i < detections@.len() ==> can_draw(
                (#[trigger] detections@[i]).bbox,
                picture_width(*source),
                picture_height(*source),
            ),
    ensures
        rgb_pixels(picture) == rendered(rgb_pixels(*source), detections@),
        picture_width(picture) == picture_width(*source),
        picture_height(picture) == picture_height(*source),
{
    let mut canvas: Canvas = Canvas::new(source);
    draw_detections(&mut canvas, detections);
    canvas.into_picture()
}

/// Whether a detection can be drawn onto a picture of this size.
fn drawable(bbox: &BoundingBox, width: u32, height: u32) -> (can: bool)
    ensures
        can == can_draw(*bbox, width, height),
{
    let right: i64 = bbox.x as i64 + bbox.width as i64 - 1;
    let bottom: i64 = bbox.y as i64 + bbox.height as i64 - 1;
    proof {
        assert(0 <= bbox.width * bbox.height <= 0xffff_ffff * 0xffff_ffff) by (nonlinear_arith)
            requires
                0 <= bbox.width <= 0xffff_ffff,
                0 <= bbox.height <= 0xffff_ffff,
        ;
    }
    0 <= right && right < width as i64 && 0 <= bottom && bottom < height as i64 && bbox.x
        < u32::MAX && bbox.y < u32::MAX && bbox.width as u64 * bbox.height as u64 <= 0x1_0000_0000
}

/// A copy of the picture with the detections drawn onto it, or nothing if one of
/// them cannot be drawn.
pub fn render_checked(source: &image::DynamicImage, detections: &[Detection]) -> (picture: Option<
    image::DynamicImage,
>)
    ensures
        picture is Some == forall|i: int|
            0 <= i < detections@.len() ==> can_draw(
                (#[trigger] detections@[i]).bbox,
                picture_width(*source),
                picture_height(*source),
            ),
        picture matches Some(picture) ==> {
            &&& rgb_pixels(picture) == rendered(rgb_pixels(*source), detections@)
            &&& picture_width(picture) == picture_width(*source)
            &&& picture_height(picture) == picture_height(*source)
        },
{
    let width: u32 = source.width();
    let height: u32 = source.height();
    let mut i: usize = 0;
    while i < detections.len()
        invariant
            i <= detections@.len(),
            width == picture_width(*source),
            height == picture_height(*source),
            forall|k: int|
                0 <= k < i ==> can_draw((#[trigger] detections@[k]).bbox, width, height),
        decreases detections@.len() - i,
    {
        if !drawable(&detections[i].bbox, width, height) {
            return None;
        }
        i = i + 1;
    }
    Some(render(source, detections))
}

/// How far a cell lies from the nearest edge of the box that it lies in.
pub open spec fn edge_distance(bbox: BoundingBox, cell: (int, int)) -> int {
    let across: int = nearer(
        cell.0 - bbox.x,
        last_cell(bbox.x, bbox.width) - cell.0,
    );
    let down: int = nearer(
        cell.1 - bbox.y,
        last_cell(bbox.y, bbox.height) - cell.1,
    );
    nearer(across, down)
}

/// The smaller of two distances.
pub open spec fn nearer(a: int, b: int) -> int {
    if a < b {
        a
    } else {
        b
    }
}

/// The frame of a box that is not empty holds the cells of the box that lie less
/// than its thickness from the nearest edge.
pub proof fn law_frames_follow_edges(bbox: BoundingBox, thickness: nat, cell: (int, int))
    requires
        bbox.width > 0,
        bbox.height > 0,
    ensures
        frames(bbox, thickness).contains(cell) <==> in_box(bbox, cell) && edge_distance(bbox, cell)
            < thickness,
{
    if frames(bbox, thickness).contains(cell) {
        let offset: int = choose|offset: int|
            0 <= offset < thickness && #[trigger] frame(bbox, offset).contains(cell);
        assert(frame(bbox, offset).contains(cell));
    }
    if in_box(bbox, cell) && edge_distance(bbox, cell) < thickness {
        assert(frame(bbox, edge_distance(bbox, cell)).contains(cell));
    }
}

/// Drawing changes no pixel outside of the boxes of the detections.
pub proof fn law_drawing_stays_in_boxes(
    picture: Map<(int, int), (u8, u8, u8)>,
    detections: Seq<Detection>,
    cell: (int, int),
)
    requires
        forall|i: int|
            0 <= i < detections.len() ==> {
                let bbox: BoundingBox = (#[trigger] detections[i]).bbox;
                bbox.width > 0 && bbox.height > 0 && !in_box(bbox, cell)
            },
    ensures
        rendered(picture, detections).dom().contains(cell) == picture.dom().contains(cell),
        picture.dom().contains(cell) ==> rendered(picture, detections)[cell] == picture[cell],
    decreases detections.len(),
{
    if detections.len() > 0 {
        let shorter: Seq<Detection> = detections.drop_last();
        assert forall|i: int| 0 <= i < shorter.len() implies {
            let bbox: BoundingBox = (#[trigger] shorter[i]).bbox;
            bbox.width > 0 && bbox.height > 0 && !in_box(bbox, cell)
        } by {
            assert(shorter[i] == detections[i]);
        }
        law_drawing_stays_in_boxes(picture, shorter, cell);
        let last: Detection = detections[detections.len() - 1];
        assert(!frames(last.bbox, 2).contains(cell));
        assert(!masked_cells(last.bbox, last.mask@).contains(cell));
    }
}

/// The frame of the detection that was drawn last has the color of its class.
pub proof fn law_last_frame_on_top(
    picture: Map<(int, int), (u8, u8, u8)>,
    detections: Seq<Detection>,
    cell: (int, int),
)
    requires
        detections.len() > 0,
        frames(detections.last().bbox, 2).contains(cell),
    ensures
        rendered(picture, detections).contains_pair(
            cell,
            class_color(detections.last().class_id),
        ),
{
}

/// Under its mask, and inside of its frame, a detection leaves a pixel halfway
/// between what it was and the color of the class.
pub proof fn law_mask_tints(
    picture: Map<(int, int), (u8, u8, u8)>,
    detections: Seq<Detection>,
    cell: (int, int),
)
    requires
        detections.len() > 0,
        masked_cells(detections.last().bbox, detections.last().mask@).contains(cell),
        !frames(detections.last().bbox, 2).contains(cell),
    ensures
        rendered(picture, detections).contains_pair(
            cell,
            blended(
                rendered(picture, detections.drop_last())[cell],
                class_color(detections.last().class_id),
            ),
        ),
{
}

/// Without detections the picture stays as it is.
pub proof fn law_nothing_to_draw(picture: Map<(int, int), (u8, u8, u8)>)
    ensures
        rendered(picture, Seq::empty()) == picture,
{
}

/// What is read from the rows of the model's output can be drawn onto the
/// picture, as long as the pixels of the picture can be counted in 32 bits.
pub proof fn law_candidates_can_be_drawn(
    rows: Seq<Seq<Single>>,
    channels: nat,
    transform: Letterbox,
    source_width: u32,
    source_height: u32,
    threshold: Number,
)
    requires
        source_width * source_height <= 0x1_0000_0000,
    ensures
        ({
            let candidates: Seq<Candidate> = decoded_rows(
                rows,
                channels,
                transform,
                source_width,
                source_height,
                threshold,
            ).0;
            forall|i: int|
                0 <= i < candidates.len() ==> can_draw(
                    (#[trigger] candidates[i]).bbox,
                    source_width,
                    source_height,
                )
        }),
{
    law_decoded_rows(rows, channels, transform, source_width, source_height, threshold);
    let candidates: Seq<Candidate> = decoded_rows(
        rows,
        channels,
        transform,
        source_width,
        source_height,
        threshold,
    ).0;
    assert forall|i: int| 0 <= i < candidates.len() implies can_draw(
        (#[trigger] candidates[i]).bbox,
        source_width,
        source_height,
    ) by {
        let bbox: BoundingBox = candidates[i].bbox;
        assert(bbox.width * bbox.height <= source_width * source_height) by (nonlinear_arith)
            requires
                bbox.width <= source_width,
                bbox.height <= source_height,
        ;
    }
}

/// The mean of two channels, rounded down; it lies between them.
pub open spec fn is_mean(mean: u8, a: u8, b: u8) -> bool {
    &&& 2 * mean <= a + b <= 2 * mean + 1
    &&& (a <= mean <= b || b <= mean <= a)
}

/// Each channel of a blended color is the mean of the two channels that it is made
/// from, rounded down, and lies between them.
pub proof fn law_blend_is_mean(color: (u8, u8, u8), other: (u8, u8, u8))
    ensures
        is_mean(blended(color, other).0, color.0, other.0),
        is_mean(blended(color, other).1, color.1, other.1),
        is_mean(blended(color, other).2, color.2, other.2),
{
}

/// The channel is a product and an offset modulo 256, where they stay within 64 bits;
/// where not, it stays what it is at the bound.
pub open spec fn is_channel(channel: u8, product: int, offset: int) -> bool {
    if product + offset >= i64::MAX {
        channel == 255
    } else if product <= i64::MIN {
        channel == offset
    } else {
        channel == (product + offset) % 256
    }
}

/// The channels of the color of a class are three multiples of the class, each with
/// an offset, modulo 256.
pub proof fn law_class_color(class_id: i64)
    ensures
        is_channel(class_color(class_id).0, 29 * class_id, 97),
        is_channel(class_color(class_id).1, 17 * class_id, 149),
        is_channel(class_color(class_id).2, 37 * class_id, 53),
{
    lemma_channel(class_id, 29, 97);
    lemma_channel(class_id, 17, 149);
    lemma_channel(class_id, 37, 53);
}

proof fn lemma_channel(class_id: i64, multiplier: int, offset: int)
    requires
        0 <= offset <= 255,
    ensures
        is_channel(class_channel(class_id, multiplier, offset), multiplier * class_id, offset),
{
    let product: int = multiplier * class_id;
    let sum: int = within(
        within(product, i64::MIN as int, i64::MAX as int) + offset,
        i64::MIN as int,
        i64::MAX as int,
    );
    assert(class_channel(class_id, multiplier, offset) == (sum % 256) as u8);
    if product + offset >= i64::MAX {
        assert(sum == 0x7fff_ffff_ffff_ffff);
    } else if product <= i64::MIN {
        assert(sum == -0x8000_0000_0000_0000 + offset);
    } else {
        assert(sum == product + offset);
    }
}

/// The cell lies in the box, less than `thickness` cells from its nearest edge.
pub open spec fn near_edge(bbox: BoundingBox, thickness: int, cell: (int, int)) -> bool {
    &&& bbox.x <= cell.0 < bbox.x + bbox.width
    &&& bbox.y <= cell.1 < bbox.y + bbox.height
    &&& (cell.0 < bbox.x + thickness || cell.0 >= bbox.x + bbox.width - thickness || cell.1 < bbox.y
        + thickness || cell.1 >= bbox.y + bbox.height - thickness)
}

/// The box around which the frame of a box is drawn: the box itself, or, where it has
/// no columns or rows, the column or row before it.
pub open spec fn framed_box(bbox: BoundingBox) -> BoundingBox {
    BoundingBox {
        x: if bbox.width == 0 {
            (bbox.x - 1) as u32
        } else {
            bbox.x
        },
        y: if bbox.height == 0 {
            (bbox.y - 1) as u32
        } else {
            bbox.y
        },
        width: if bbox.width == 0 {
            1
        } else {
            bbox.width
        },
        height: if bbox.height == 0 {
            1
        } else {
            bbox.height
        },
    }
}

/// The frame of a box without columns or rows is that of the column or row before it.
proof fn lemma_framed_box(bbox: BoundingBox, thickness: nat)
    requires
        bbox.width > 0 || bbox.x > 0,
        bbox.height > 0 || bbox.y > 0,
    ensures
        frames(bbox, thickness) == frames(framed_box(bbox), thickness),
{
    assert forall|offset: int| 0 <= offset implies frame(bbox, offset) == #[trigger] frame(
        framed_box(bbox),
        offset,
    ) by {
        assert(frame(bbox, offset) =~= frame(framed_box(bbox), offset));
    }
    assert forall|cell: (int, int)|
        frames(bbox, thickness).contains(cell) == frames(framed_box(bbox), thickness).contains(
            cell,
        ) by {
        if frames(bbox, thickness).contains(cell) {
            let offset: int = choose|offset: int|
                0 <= offset < thickness && #[trigger] frame(bbox, offset).contains(cell);
            assert(frame(framed_box(bbox), offset).contains(cell));
        }
        if frames(framed_box(bbox), thickness).contains(cell) {
            let offset: int = choose|offset: int|
                0 <= offset < thickness && #[trigger] frame(framed_box(bbox), offset).contains(
                    cell,
                );
            assert(frame(bbox, offset).contains(cell));
        }
    }
    assert(frames(bbox, thickness) =~= frames(framed_box(bbox), thickness));
}

/// A frame colors the cells of the box that lie less than its thickness from the
/// nearest edge, and changes no other.
pub proof fn law_frame_colors_edges(
    picture: Map<(int, int), (u8, u8, u8)>,
    bbox: BoundingBox,
    color: (u8, u8, u8),
    thickness: nat,
    cell: (int, int),
)
    requires
        bbox.width > 0 || bbox.x > 0,
        bbox.height > 0 || bbox.y > 0,
        picture.dom().contains(cell),
    ensures
        painted(picture, frames(bbox, thickness), color).contains_pair(
            cell,
            if near_edge(framed_box(bbox), thickness as int, cell) {
                color
            } else {
                picture[cell]
            },
        ),
{
    lemma_framed_box(bbox, thickness);
    law_frames_follow_edges(framed_box(bbox), thickness, cell);
}

/// A pixel after a detection was drawn: in the outer two rows and columns of the box
/// it has the color of the class; further in, where the mask is set, each of its
/// channels is the mean of what it was and that of the color; everywhere else it is
/// what it was. The mask holds the pixels of the box row by row.
pub proof fn law_drawn_pixel(
    picture: Map<(int, int), (u8, u8, u8)>,
    detections: Seq<Detection>,
    cell: (int, int),
)
    requires
        detections.len() > 0,
        detections.last().bbox.width > 0 || detections.last().bbox.x > 0,
        detections.last().bbox.height > 0 || detections.last().bbox.y > 0,
        picture.dom().contains(cell),
    ensures
        ({
            let last: Detection = detections.last();
            let bbox: BoundingBox = last.bbox;
            let color: (u8, u8, u8) = class_color(last.class_id);
            let earlier: Map<(int, int), (u8, u8, u8)> = rendered(picture, detections.drop_last());
            let later: Map<(int, int), (u8, u8, u8)> = rendered(picture, detections);
            let index: int = (cell.1 - bbox.y) * bbox.width + (cell.0 - bbox.x);
            let inside: bool = bbox.x <= cell.0 < bbox.x + bbox.width && bbox.y <= cell.1 < bbox.y
                + bbox.height;
            &&& earlier.dom().contains(cell)
            &&& later.dom().contains(cell)
            &&& if near_edge(framed_box(bbox), 2, cell) {
                later[cell] == color
            } else if inside && index < last.mask@.len() && last.mask@[index] != 0 {
                &&& is_mean(later[cell].0, earlier[cell].0, color.0)
                &&& is_mean(later[cell].1, earlier[cell].1, color.1)
                &&& is_mean(later[cell].2, earlier[cell].2, color.2)
            } else {
                later[cell] == earlier[cell]
            }
        }),
    decreases detections.len(),
{
    let last: Detection = detections.last();
    lemma_rendered_keeps_cells(picture, detections.drop_last(), cell);
    lemma_framed_box(last.bbox, 2);
    law_frames_follow_edges(framed_box(last.bbox), 2, cell);
    let earlier: Map<(int, int), (u8, u8, u8)> = rendered(picture, detections.drop_last());
    law_blend_is_mean(earlier[cell], class_color(last.class_id));
}

proof fn lemma_rendered_keeps_cells(
    picture: Map<(int, int), (u8, u8, u8)>,
    detections: Seq<Detection>,
    cell: (int, int),
)
    requires
        picture.dom().contains(cell),
    ensures
        rendered(picture, detections).dom().contains(cell),
    decreases detections.len(),
{
    if detections.len() > 0 {
        lemma_rendered_keeps_cells(picture, detections.drop_last(), cell);
    }
}

/// What is drawn in two parts, one after the other, is what is drawn at once.
pub proof fn law_drawing_goes_on(
    picture: Map<(int, int), (u8, u8, u8)>,
    first: Seq<Detection>,
    second: Seq<Detection>,
)
    ensures
        rendered(picture, first + second) == rendered(rendered(picture, first), second),
    decreases second.len(),
{
    if second.len() == 0 {
        assert(first + second =~= first);
    } else {
        law_drawing_goes_on(picture, first, second.drop_last());
        assert((first + second).drop_last() =~= first + second.drop_last());
    }
}

/// A box can be drawn exactly where it ends in the picture, and not before its first
/// column and row, its first column and row are not the last that 32 bits can count,
/// and its cells can be counted in 32 bits.
pub proof fn law_what_can_be_drawn(bbox: BoundingBox, width: u32, height: u32)
    ensures
        can_draw(bbox, width, height) <==> {
            &&& 1 <= bbox.x + bbox.width <= width
            &&& 1 <= bbox.y + bbox.height <= height
            &&& bbox.x <= 0xffff_fffe
            &&& bbox.y <= 0xffff_fffe
            &&& bbox.width * bbox.height <= 0x1_0000_0000
        },
{
}

} // verus!
