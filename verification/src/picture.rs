//! Pictures, as the `image` crate holds them.
use vstd::prelude::*;

verus! {

/// A decoded picture of the `image` crate, of whatever color type.
#[verifier::external_type_specification]
#[verifier::external_body]
pub struct ExDynamicImage(image::DynamicImage);

/// The bytes of a picture as red, green and blue, row by row: the buffer of what
/// `image::DynamicImage::to_rgb8` makes of it.
pub uninterp spec fn rgb_bytes(picture: image::DynamicImage) -> Seq<u8>;

/// The width of a picture.
pub uninterp spec fn picture_width(picture: image::DynamicImage) -> u32;

/// The height of a picture.
pub uninterp spec fn picture_height(picture: image::DynamicImage) -> u32;

/// `image::DynamicImage::width` returns the width.
pub assume_specification[ image::DynamicImage::width ](picture: &image::DynamicImage) -> (width:
    u32)
    ensures
        width == picture_width(*picture),
;

/// `image::DynamicImage::height` returns the height.
pub assume_specification[ image::DynamicImage::height ](picture: &image::DynamicImage) -> (height:
    u32)
    ensures
        height == picture_height(*picture),
;

/// A picture of red, green and blue bytes that can be drawn on.
#[verifier::external_body]
pub struct Canvas {
    image: image::RgbImage,
}

/// The bytes of a canvas, row by row.
pub uninterp spec fn raw_bytes(canvas: Canvas) -> Seq<u8>;

/// The width of a canvas.
pub uninterp spec fn canvas_width(canvas: Canvas) -> u32;

/// The height of a canvas.
pub uninterp spec fn canvas_height(canvas: Canvas) -> u32;

/// Where the three bytes of a pixel start, in rows of `width` pixels.
pub open spec fn pixel_start(width: u32, x: int, y: int) -> int {
    3 * (y * width + x)
}

/// The pixels that a buffer holds by column and row, as red, green and blue.
pub open spec fn pixel_map(bytes: Seq<u8>, width: u32, height: u32) -> Map<
    (int, int),
    (u8, u8, u8),
> {
    Map::new(
        |cell: (int, int)| 0 <= cell.0 < width && 0 <= cell.1 < height,
        |cell: (int, int)|
            {
                let first: int = pixel_start(width, cell.0, cell.1);
                (bytes[first], bytes[first + 1], bytes[first + 2])
            },
    )
}

/// The buffer with the three bytes of one pixel replaced.
pub open spec fn with_pixel(
    bytes: Seq<u8>,
    width: u32,
    x: int,
    y: int,
    color: (u8, u8, u8),
) -> Seq<u8> {
    let first: int = pixel_start(width, x, y);
    bytes.update(first, color.0).update(first + 1, color.1).update(first + 2, color.2)
}

/// The buffer has room for the pixels of a picture of this size.
pub open spec fn holds_pixels(bytes: Seq<u8>, width: u32, height: u32) -> bool {
    bytes.len() >= 3 * (height * width)
}

/// The pixels of a picture by column and row, as red, green and blue.
pub open spec fn rgb_pixels(picture: image::DynamicImage) -> Map<(int, int), (u8, u8, u8)> {
    pixel_map(rgb_bytes(picture), picture_width(picture), picture_height(picture))
}

/// The pixels of a canvas by column and row, as red, green and blue.
pub open spec fn pixels(canvas: Canvas) -> Map<(int, int), (u8, u8, u8)> {
    pixel_map(raw_bytes(canvas), canvas_width(canvas), canvas_height(canvas))
}

/// Calls `image::DynamicImage::to_rgb8`: a picture of the same size, with the
/// pixels as red, green and blue bytes in a buffer that has room for them.
#[verifier::external_body]
fn to_rgb8(picture: &image::DynamicImage) -> (canvas: Canvas)
    ensures
        raw_bytes(canvas) == rgb_bytes(*picture),
        canvas_width(canvas) == picture_width(*picture),
        canvas_height(canvas) == picture_height(*picture),
        holds_pixels(raw_bytes(canvas), canvas_width(canvas), canvas_height(canvas)),
{
    Canvas { image: picture.to_rgb8() }
}

/// Calls `image::DynamicImage::from` on the buffer of a canvas: a picture that
/// `to_rgb8` leaves as it is.
#[verifier::external_body]
fn from_rgb8(canvas: Canvas) -> (picture: image::DynamicImage)
    ensures
        rgb_bytes(picture) == raw_bytes(canvas),
        picture_width(picture) == canvas_width(canvas),
        picture_height(picture) == canvas_height(canvas),
{
    image::DynamicImage::from(canvas.image)
}

/// Calls `image::ImageBuffer::into_raw`: the whole buffer. One that was made with
/// more bytes than its pixels need keeps them at its end.
#[verifier::external_body]
fn into_raw(canvas: Canvas) -> (bytes: Vec<u8>)
    ensures
        bytes@ == raw_bytes(canvas),
        holds_pixels(bytes@, canvas_width(canvas), canvas_height(canvas)),
{
    canvas.image.into_raw()
}

/// The places of the bytes of a pixel lie in the buffer.
proof fn lemma_pixel_in_buffer(width: u32, height: u32, x: int, y: int)
    requires
        0 <= x < width,
        0 <= y < height,
    ensures
        0 <= pixel_start(width, x, y),
        pixel_start(width, x, y) + 3 <= 3 * (height * width),
{
    assert(0 <= y * width && y * width + width <= height * width) by (nonlinear_arith)
        requires
            0 <= y,
            y + 1 <= height,
            0 <= width,
    ;
}

/// The bytes of different pixels do not overlap.
proof fn lemma_pixels_apart(width: u32, x: int, y: int, a: int, b: int)
    requires
        0 <= x < width,
        0 <= a < width,
        (x, y) != (a, b),
    ensures
        pixel_start(width, x, y) + 3 <= pixel_start(width, a, b) || pixel_start(width, a, b) + 3
            <= pixel_start(width, x, y),
{
    if y < b {
        assert(y * width + width <= b * width) by (nonlinear_arith)
            requires
                y + 1 <= b,
        ;
    } else if b < y {
        assert(b * width + width <= y * width) by (nonlinear_arith)
            requires
                b + 1 <= y,
        ;
    }
}

/// To replace the bytes of a pixel is to change that pixel and no other.
proof fn lemma_with_pixel(
    bytes: Seq<u8>,
    width: u32,
    height: u32,
    x: int,
    y: int,
    color: (u8, u8, u8),
)
    requires
        0 <= x < width,
        0 <= y < height,
        holds_pixels(bytes, width, height),
    ensures
        pixel_map(with_pixel(bytes, width, x, y, color), width, height) == pixel_map(
            bytes,
            width,
            height,
        ).insert((x, y), color),
{
    let after: Seq<u8> = with_pixel(bytes, width, x, y, color);
    let left: Map<(int, int), (u8, u8, u8)> = pixel_map(after, width, height);
    let right: Map<(int, int), (u8, u8, u8)> = pixel_map(bytes, width, height).insert(
        (x, y),
        color,
    );
    lemma_pixel_in_buffer(width, height, x, y);
    assert forall|cell: (int, int)| left.dom().contains(cell) implies #[trigger] left[cell]
        == right[cell] by {
        lemma_pixel_in_buffer(width, height, cell.0, cell.1);
        if cell != (x, y) {
            lemma_pixels_apart(width, x, y, cell.0, cell.1);
        }
    }
    assert(left.dom() =~= right.dom());
    assert(left =~= right);
}

impl Canvas {
    /// Calls `image::ImageBuffer::get_pixel`, which panics outside of the picture:
    /// the three bytes of the pixel in a column and a row.
    #[verifier::external_body]
    fn raw_pixel(&self, x: u32, y: u32) -> (color: (u8, u8, u8))
        requires
            x < canvas_width(*self),
            y < canvas_height(*self),
        ensures
            ({
                let first: int = pixel_start(canvas_width(*self), x as int, y as int);
                let bytes: Seq<u8> = raw_bytes(*self);
                color == (bytes[first], bytes[first + 1], bytes[first + 2])
            }),
    {
        let [red, green, blue] = self.image.get_pixel(x, y).0;
        (red, green, blue)
    }

    /// Calls `image::ImageBuffer::put_pixel`, which panics outside of the picture:
    /// the three bytes of the pixel in a column and a row become the color, and
    /// nothing else changes. The buffer has room for every pixel, as ever.
    #[verifier::external_body]
    fn set_raw_pixel(&mut self, x: u32, y: u32, color: (u8, u8, u8))
        requires
            x < canvas_width(*old(self)),
            y < canvas_height(*old(self)),
        ensures
            raw_bytes(*final(self)) == with_pixel(
                raw_bytes(*old(self)),
                canvas_width(*old(self)),
                x as int,
                y as int,
                color,
            ),
            canvas_width(*final(self)) == canvas_width(*old(self)),
            canvas_height(*final(self)) == canvas_height(*old(self)),
            raw_bytes(*final(self)).len() == raw_bytes(*old(self)).len(),
            holds_pixels(
                raw_bytes(*final(self)),
                canvas_width(*final(self)),
                canvas_height(*final(self)),
            ),
    {
        self.image.put_pixel(x, y, image::Rgb([color.0, color.1, color.2]));
    }

    /// The pixel in a column and a row.
    pub(crate) fn get_pixel(&self, x: u32, y: u32) -> (color: (u8, u8, u8))
        requires
            x < canvas_width(*self),
            y < canvas_height(*self),
        ensures
            pixels(*self).contains_pair((x as int, y as int), color),
    {
        self.raw_pixel(x, y)
    }

    /// Colors the pixel in a column and a row.
    pub(crate) fn put_pixel(&mut self, x: u32, y: u32, color: (u8, u8, u8))
        requires
            x < canvas_width(*old(self)),
            y < canvas_height(*old(self)),
        ensures
            pixels(*final(self)) == pixels(*old(self)).insert((x as int, y as int), color),
            canvas_width(*final(self)) == canvas_width(*old(self)),
            canvas_height(*final(self)) == canvas_height(*old(self)),
    {
        self.set_raw_pixel(x, y, color);
        proof {
            lemma_with_pixel(
                raw_bytes(*old(self)),
                canvas_width(*self),
                canvas_height(*self),
                x as int,
                y as int,
                color,
            );
        }
    }

    /// A copy of the picture to draw on.
    pub fn new(picture: &image::DynamicImage) -> (canvas: Canvas)
        ensures
            raw_bytes(canvas) == rgb_bytes(*picture),
            canvas_width(canvas) == picture_width(*picture),
            canvas_height(canvas) == picture_height(*picture),
            pixels(canvas) == rgb_pixels(*picture),
    {
        to_rgb8(picture)
    }

    /// The picture that was drawn.
    pub fn into_picture(self) -> (picture: image::DynamicImage)
        ensures
            rgb_bytes(picture) == raw_bytes(self),
            picture_width(picture) == canvas_width(self),
            picture_height(picture) == canvas_height(self),
            rgb_pixels(picture) == pixels(self),
    {
        from_rgb8(self)
    }

    /// The bytes of the pixels, row by row.
    pub fn into_bytes(self) -> (bytes: Vec<u8>)
        ensures
            bytes@ == raw_bytes(self),
            holds_pixels(bytes@, canvas_width(self), canvas_height(self)),
    {
        into_raw(self)
    }
}

/// The pixels of a buffer are its bytes, row by row, three to a pixel, and no more than
/// the picture has columns and rows.
pub proof fn law_pixels_row_by_row(bytes: Seq<u8>, width: u32, height: u32, x: int, y: int)
    ensures
        pixel_map(bytes, width, height).dom().contains((x, y)) <==> 0 <= x < width && 0 <= y
            < height,
        0 <= x < width && 0 <= y < height ==> pixel_map(bytes, width, height)[(x, y)] == (
            bytes[3 * (y * width + x)],
            bytes[3 * (y * width + x) + 1],
            bytes[3 * (y * width + x) + 2],
        ),
{
}

} // verus!
