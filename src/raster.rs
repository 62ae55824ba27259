use image::GrayImage;
use vstd::prelude::*;

use crate::error::StringArtError;
use crate::line::{between, lemma_line, line_pixels, PixelLine};

verus! {

/// An 8-bit grayscale picture, one byte per pixel, rows one after another.
/// The bytes live in the image crate's buffer; what the contracts know of them
/// is given by `raster_cells` and `raster_dims`.
#[verifier::external_body]
pub struct Raster {
    img: GrayImage,
}

// The bytes of a raster, row by row.
pub uninterp spec fn raster_cells(r: Raster) -> Seq<u8>;

// The width and the height of a raster.
pub uninterp spec fn raster_dims(r: Raster) -> (nat, nat);

// The picture that encoded bytes decode to, reduced to 8-bit gray: its width,
// its height and its bytes row by row; nothing where the bytes do not decode.
pub uninterp spec fn decoded_gray(data: Seq<u8>) -> Option<(nat, nat, Seq<u8>)>;

/// `v - w`, or 0 where that would be negative.
pub open spec fn sat_sub(v: u8, w: u8) -> u8 {
    if v > w { (v - w) as u8 } else { 0 }
}

/// The photographic negative of a row of bytes.
pub open spec fn inverted(c: Seq<u8>) -> Seq<u8> {
    c.map_values(|v: u8| (255 - v) as u8)
}

/// Position of pixel `p` in the bytes of a raster of width `w`.
pub open spec fn cell_index(w: nat, p: (int, int)) -> int {
    p.1 * w + p.0
}

/// Pixel `p` lies on a `w` by `h` raster.
pub open spec fn on_canvas(w: nat, h: nat, p: (int, int)) -> bool {
    0 <= p.0 < w && 0 <= p.1 < h
}

/// A point given as two `i32` lies on a `w` by `h` raster.
pub open spec fn point_on_canvas(w: nat, h: nat, p: (i32, i32)) -> bool {
    on_canvas(w, h, (p.0 as int, p.1 as int))
}

/// Sum of the bytes at the pixels `pts`.
pub open spec fn line_sum(cells: Seq<u8>, w: nat, pts: Seq<(int, int)>) -> int
    decreases pts.len(),
{
    if pts.len() == 0 {
        0
    } else {
        cells[cell_index(w, pts[0])] as int + line_sum(cells, w, pts.drop_first())
    }
}

/// The bytes after each pixel of `pts`, in order, has had `weight` taken off
/// with a floor of 0.
pub open spec fn subtract_along(cells: Seq<u8>, w: nat, pts: Seq<(int, int)>, weight: u8) -> Seq<u8>
    decreases pts.len(),
{
    if pts.len() == 0 {
        cells
    } else {
        let i = cell_index(w, pts[0]);
        subtract_along(cells.update(i, sat_sub(cells[i], weight)), w, pts.drop_first(), weight)
    }
}

/// The bytes after each pixel of `pts` has been set to 0.
pub open spec fn blacken_along(cells: Seq<u8>, w: nat, pts: Seq<(int, int)>) -> Seq<u8>
    decreases pts.len(),
{
    if pts.len() == 0 {
        cells
    } else {
        blacken_along(cells.update(cell_index(w, pts[0]), 0), w, pts.drop_first())
    }
}

/// The pixels of the segment from `p1` to `p2`.
pub open spec fn segment(p1: (i32, i32), p2: (i32, i32)) -> Seq<(int, int)> {
    line_pixels(p1.0, p1.1, p2.0, p2.1)
}

impl Raster {
    pub open spec fn width(&self) -> nat {
        raster_dims(*self).0
    }

    pub open spec fn height(&self) -> nat {
        raster_dims(*self).1
    }

    pub open spec fn cells(&self) -> Seq<u8> {
        raster_cells(*self)
    }

    /// One byte per pixel, and dimensions that fit in `u32`.
    pub open spec fn wf(&self) -> bool {
        &&& self.cells().len() == self.width() * self.height()
        &&& self.width() <= u32::MAX
        &&& self.height() <= u32::MAX
    }

    /// Relies on image::load_from_memory, which guesses the format from the
    /// bytes and decodes them, and on DynamicImage::to_luma8, which reduces the
    /// result to 8-bit gray.
    #[verifier::external_body]
    fn decode_gray(data: &[u8]) -> (r: Result<Raster, image::ImageError>)
        ensures
            match r {
                Ok(g) => g.wf() && decoded_gray(data@) == Some((g.width(), g.height(), g.cells())),
                Err(_) => decoded_gray(data@) is None,
            },
    {
        match image::load_from_memory(data) {
            Ok(d) => Ok(Raster { img: d.to_luma8() }),
            Err(e) => Err(e),
        }
    }

    /// Relies on ImageBuffer::from_pixel: a `width` by `height` buffer with
    /// every byte `v`; it panics only where the buffer could not be a `Vec`.
    #[verifier::external_body]
    fn from_pixel(width: u32, height: u32, v: u8) -> (r: Raster)
        requires
            width * height <= isize::MAX,
        ensures
            r.wf(),
            r.width() == width,
            r.height() == height,
            r.cells() == Seq::new((width * height) as nat, |i: int| v),
    {
        Raster { img: GrayImage::from_pixel(width, height, image::Luma([v])) }
    }

    /// Relies on ImageBuffer::dimensions: the width and height of the buffer.
    #[verifier::external_body]
    fn dims(&self) -> (r: (u32, u32))
        ensures
            r.0 == self.width(),
            r.1 == self.height(),
    {
        self.img.dimensions()
    }

    /// Relies on ImageBuffer::get_pixel: the byte of pixel `(x, y)`.
    #[verifier::external_body]
    fn pixel(&self, x: u32, y: u32) -> (r: u8)
        requires
            self.wf(),
            x < self.width(),
            y < self.height(),
        ensures
            r == self.cells()[y * self.width() + x],
    {
        self.img.get_pixel(x, y).0[0]
    }

    /// Relies on ImageBuffer::put_pixel: the byte of pixel `(x, y)` becomes
    /// `v`, and nothing else changes.
    #[verifier::external_body]
    fn put_pixel(&mut self, x: u32, y: u32, v: u8)
        requires
            old(self).wf(),
            x < old(self).width(),
            y < old(self).height(),
        ensures
            raster_dims(*final(self)) == raster_dims(*old(self)),
            raster_cells(*final(self)) == raster_cells(*old(self)).update(
                y * old(self).width() + x,
                v,
            ),
    {
        self.img.put_pixel(x, y, image::Luma([v]))
    }

    /// Relies on image::imageops::invert: each gray byte `v` becomes `255 - v`.
    #[verifier::external_body]
    fn invert(&mut self)
        ensures
            raster_dims(*final(self)) == raster_dims(*old(self)),
            raster_cells(*final(self)) == inverted(raster_cells(*old(self))),
    {
        image::imageops::invert(&mut self.img)
    }

    /// Relies on ImageBuffer::into_raw: the bytes of the buffer, row by row.
    #[verifier::external_body]
    fn into_raw(self) -> (r: Vec<u8>)
        ensures
            r@ == self.cells(),
    {
        self.img.into_raw()
    }

    /// A white `width` by `height` picture.
    pub fn white(width: u32, height: u32) -> (r: Raster)
        requires
            width * height <= isize::MAX,
        ensures
            r.wf(),
            r.width() == width,
            r.height() == height,
            r.cells() == Seq::new((width * height) as nat, |i: int| 255u8),
    {
        Raster::from_pixel(width, height, 255)
    }

    /// Width and height.
    pub fn size(&self) -> (r: (u32, u32))
        ensures
            r.0 == self.width(),
            r.1 == self.height(),
    {
        self.dims()
    }

    /// The bytes, row by row.
    pub fn into_bytes(self) -> (r: Vec<u8>)
        ensures
            r@ == self.cells(),
    {
        self.into_raw()
    }
}

proof fn lemma_cell_index(w: nat, h: nat, p: (int, int))
    requires
        on_canvas(w, h, p),
    ensures
        0 <= cell_index(w, p) < w * h,
{
    assert(0 <= p.1 * w + p.0 < w * h) by (nonlinear_arith)
        requires
            0 <= p.0 < w,
            0 <= p.1 < h,
    ;
}

/// Every pixel of the segment between two points of the canvas lies on it.
proof fn lemma_segment_on_canvas(w: nat, h: nat, p1: (i32, i32), p2: (i32, i32))
    requires
        point_on_canvas(w, h, p1),
        point_on_canvas(w, h, p2),
    ensures
        forall|i: int|
            0 <= i < segment(p1, p2).len() ==> on_canvas(w, h, #[trigger] segment(p1, p2)[i]),
        segment(p1, p2).len() <= 2 * 0x1_0000_0000 + 1,
{
    lemma_line(p1.0, p1.1, p2.0, p2.1);
    let p = segment(p1, p2);
    assert forall|i: int| 0 <= i < p.len() implies on_canvas(w, h, #[trigger] p[i]) by {
        assert(between(p[i].0, p1.0 as int, p2.0 as int));
        assert(between(p[i].1, p1.1 as int, p2.1 as int));
    }
}

/// The residual field of a picture: its decoded gray bytes, inverted, so that
/// dark ink becomes a high value still to be covered. The picture must be
/// square.
pub fn load_residual(image_data: &[u8]) -> (r: Result<Raster, StringArtError>)
    ensures
        match decoded_gray(image_data@) {
            None => match r {
                Err(StringArtError::Decode(_)) => true,
                _ => false,
            },
            Some((w, h, c)) => if w != h {
                match r {
                    Err(StringArtError::Shape) => true,
                    _ => false,
                }
            } else {
                match r {
                    Ok(f) => f.wf() && f.width() == w && f.height() == h && f.cells() == inverted(
                        c,
                    ),
                    Err(_) => false,
                }
            },
        },
{
    match Raster::decode_gray(image_data) {
        Err(e) => Err(StringArtError::Decode(e)),
        Ok(mut g) => {
            let (w, h) = g.dims();
            if w != h {
                return Err(StringArtError::Shape);
            }
            g.invert();
            Ok(g)
        },
    }
}

/// Sum of the residual at every pixel of the segment from `p1` to `p2`, both
/// ends included.
pub fn calculate_line_intensity(field: &Raster, p1: (i32, i32), p2: (i32, i32)) -> (r: u64)
    requires
        field.wf(),
        point_on_canvas(field.width(), field.height(), p1),
        point_on_canvas(field.width(), field.height(), p2),
    ensures
        r == line_sum(field.cells(), field.width(), segment(p1, p2)),
{
    let ghost w = field.width();
    let ghost h = field.height();
    let ghost cells = field.cells();
    let ghost full = segment(p1, p2);
    proof {
        lemma_segment_on_canvas(w, h, p1, p2);
    }
    let mut line = PixelLine::new(p1.0, p1.1, p2.0, p2.1);
    let mut total: u64 = 0;
    loop
        invariant
            line.wf(),
            line@.len() <= full.len() <= 2 * 0x1_0000_0000 + 1,
            total <= 255 * (full.len() - line@.len()),
            total + line_sum(cells, w, line@) == line_sum(cells, w, full),
            forall|i: int| 0 <= i < line@.len() ==> on_canvas(w, h, #[trigger] line@[i]),
            field.wf(),
            w == field.width() && h == field.height() && cells == field.cells(),
            full == segment(p1, p2),
        decreases line@.len(),
    {
        let ghost rest = line@;
        match line.next() {
            None => {
                return total;
            },
            Some((x, y)) => {
                assert(on_canvas(w, h, rest[0]));
                let v = field.pixel(x as u32, y as u32);
                total = total + v as u64;
                assert(forall|i: int| 0 <= i < line@.len() ==> line@[i] == rest[i + 1]);
            },
        }
    }
}

/// Takes `weight` off the residual, with a floor of 0, at every pixel of the
/// segment from `p1` to `p2`, both ends included. No byte grows.
pub fn subtract_line(field: &mut Raster, p1: (i32, i32), p2: (i32, i32), weight: u8)
    requires
        old(field).wf(),
        point_on_canvas(old(field).width(), old(field).height(), p1),
        point_on_canvas(old(field).width(), old(field).height(), p2),
    ensures
        final(field).wf(),
        raster_dims(*final(field)) == raster_dims(*old(field)),
        final(field).cells() == subtract_along(
            old(field).cells(),
            old(field).width(),
            segment(p1, p2),
            weight,
        ),
        forall|i: int|
            0 <= i < old(field).cells().len() ==> #[trigger] final(field).cells()[i]
                <= old(field).cells()[i],
{
    let ghost w = field.width();
    let ghost h = field.height();
    let ghost start = field.cells();
    let ghost dims = raster_dims(*field);
    let ghost full = segment(p1, p2);
    proof {
        lemma_segment_on_canvas(w, h, p1, p2);
    }
    let mut line = PixelLine::new(p1.0, p1.1, p2.0, p2.1);
    loop
        invariant
            line.wf(),
            forall|i: int| 0 <= i < line@.len() ==> on_canvas(w, h, #[trigger] line@[i]),
            field.wf(),
            w == field.width() && h == field.height(),
            raster_dims(*field) == dims,
            dims == raster_dims(*old(field)) && start == old(field).cells(),
            full == segment(p1, p2),
            field.cells().len() == start.len(),
            subtract_along(field.cells(), w, line@, weight) == subtract_along(start, w, full, weight),
            forall|i: int| 0 <= i < start.len() ==> #[trigger] field.cells()[i] <= start[i],
        decreases line@.len(),
    {
        let ghost rest = line@;
        let ghost before = field.cells();
        match line.next() {
            None => {
                assert(field.cells() == subtract_along(field.cells(), w, rest, weight));
                return;
            },
            Some((x, y)) => {
                assert(on_canvas(w, h, rest[0]));
                proof {
                    lemma_cell_index(w, h, rest[0]);
                }
                let v = field.pixel(x as u32, y as u32);
                let nv: u8 = if v > weight { v - weight } else { 0 };
                field.put_pixel(x as u32, y as u32, nv);
                assert(rest.drop_first() == line@);
                assert(field.cells() == before.update(cell_index(w, rest[0]), sat_sub(before[cell_index(w, rest[0])], weight)));
            },
        }
    }
}

/// Sets to 0 (black) every pixel of the segment from `p1` to `p2`, both ends
/// included.
pub fn draw_line(image: &mut Raster, p1: (i32, i32), p2: (i32, i32))
    requires
        old(image).wf(),
        point_on_canvas(old(image).width(), old(image).height(), p1),
        point_on_canvas(old(image).width(), old(image).height(), p2),
    ensures
        final(image).wf(),
        raster_dims(*final(image)) == raster_dims(*old(image)),
        final(image).cells() == blacken_along(old(image).cells(), old(image).width(), segment(p1, p2)),
{
    let ghost w = image.width();
    let ghost h = image.height();
    let ghost start = image.cells();
    let ghost dims = raster_dims(*image);
    let ghost full = segment(p1, p2);
    proof {
        lemma_segment_on_canvas(w, h, p1, p2);
    }
    let mut line = PixelLine::new(p1.0, p1.1, p2.0, p2.1);
    loop
        invariant
            line.wf(),
            forall|i: int| 0 <= i < line@.len() ==> on_canvas(w, h, #[trigger] line@[i]),
            image.wf(),
            w == image.width() && h == image.height(),
            raster_dims(*image) == dims,
            dims == raster_dims(*old(image)) && start == old(image).cells(),
            full == segment(p1, p2),
            blacken_along(image.cells(), w, line@) == blacken_along(start, w, full),
        decreases line@.len(),
    {
        let ghost rest = line@;
        match line.next() {
            None => {
                assert(image.cells() == blacken_along(image.cells(), w, rest));
                return;
            },
            Some((x, y)) => {
                assert(on_canvas(w, h, rest[0]));
                proof {
                    lemma_cell_index(w, h, rest[0]);
                }
                image.put_pixel(x as u32, y as u32, 0);
                assert(rest.drop_first() == line@);
            },
        }
    }
}

} // verus!
