//! Decoded RGBA frames and the differencing that decides which parts of
//! an image changed between two frames: per-pixel change tests, the
//! bounding box of all changes, the list of changed tiles, and the
//! extraction of a rectangle's pixels for a partial upload.
use vstd::prelude::*;
use crate::config::{ImageDiffMode, ImageFilterType};

verus! {

/// A decoded image: `width * height` pixels of four bytes (R, G, B, A),
/// row by row.
#[derive(Debug)]
pub struct RgbaFrame {
    pub width: u32,
    pub height: u32,
    pub pixels: Vec<u8>,
}

impl Clone for RgbaFrame {
    fn clone(&self) -> (r: Self)
        ensures
            r.width == self.width,
            r.height == self.height,
            r.pixels@ == self.pixels@,
    {
        let pixels = self.pixels.clone();
        assert(pixels@ =~= self.pixels@);
        RgbaFrame { width: self.width, height: self.height, pixels }
    }
}

/// The frame holds at least all the bytes that its size calls for.
pub open spec fn frame_complete(f: &RgbaFrame) -> bool {
    f.pixels@.len() >= f.width as int * f.height as int * 4
}

/// A rectangle of pixels.
#[derive(Debug, Clone, Copy, PartialEq, Eq, Structural)]
pub struct DirtyRect {
    pub x: u32,
    pub y: u32,
    pub width: u32,
    pub height: u32,
}

/// What `image::load_from_memory(bytes)?.to_rgba8()` yields for `bytes`:
/// width, height and pixel data, or nothing when decoding fails.
pub uninterp spec fn spec_decode_rgba(bytes: Seq<u8>) -> Option<(u32, u32, Seq<u8>)>;

/// Decodes an encoded image (PNG, JPEG, ...) into RGBA pixels with the
/// `image` crate (`load_from_memory`, then `to_rgba8`). The contract names
/// the result `spec_decode_rgba` of the input bytes and states what
/// `ImageBuffer` guarantees of its buffer: exactly `width * height * 4`
/// bytes, which as a `Vec` are at most `isize::MAX`. What a given input
/// decodes to is not stated.
#[verifier::external_body]
pub fn decode_rgba_frame(image_data: &[u8]) -> (r: Option<RgbaFrame>)
    ensures
        match r {
            Some(f) => spec_decode_rgba(image_data@) == Some((f.width, f.height, f.pixels@))
                && f.pixels@.len() == f.width as int * f.height as int * 4 && f.pixels@.len() <= isize::MAX,
            None => spec_decode_rgba(image_data@) is None,
        },
{
    let img = ::image::load_from_memory(image_data).ok()?;
    let rgba = img.to_rgba8();
    Some(RgbaFrame { width: rgba.width(), height: rgba.height(), pixels: rgba.into_raw() })
}

#[verifier::external_type_specification]
#[verifier::external_body]
pub struct ExFilterType(::image::imageops::FilterType);

impl ImageFilterType {
    /// The `image` crate's filter of the same name
    /// (`image::imageops::FilterType`), one variant for each. The crate's
    /// enum is opaque here, so nothing is stated of the result.
    #[verifier::external_body]
    pub fn as_filter_type(self) -> ::image::imageops::FilterType {
        match self {
            ImageFilterType::Nearest => ::image::imageops::FilterType::Nearest,
            ImageFilterType::Triangle => ::image::imageops::FilterType::Triangle,
            ImageFilterType::CatmullRom => ::image::imageops::FilterType::CatmullRom,
            ImageFilterType::Gaussian => ::image::imageops::FilterType::Gaussian,
            ImageFilterType::Lanczos3 => ::image::imageops::FilterType::Lanczos3,
        }
    }
}

#[verifier::external_type_specification]
#[verifier::external_body]
pub struct ExDynamicImage(::image::DynamicImage);

/// A decoded image in its own colour type and bit depth, as the `image`
/// crate holds it, with its size. The ghost fields record where it came
/// from: the encoded bytes it was decoded from, and the size and filter
/// it was then scaled with, if any. Only the wrappers below make one.
pub struct DecodedImage {
    pub(crate) width: u32,
    pub(crate) height: u32,
    pub(crate) image: ::image::DynamicImage,
    pub(crate) source: Ghost<Seq<u8>>,
    pub(crate) scale: Ghost<Option<(u32, u32, ImageFilterType)>>,
}

/// The size of the image that `image::load_from_memory` decodes from
/// `bytes`, or nothing when decoding fails.
pub uninterp spec fn spec_decode_dims(bytes: Seq<u8>) -> Option<(u32, u32)>;

/// Decodes an encoded image with `image::load_from_memory`, keeping its
/// colour type and bit depth. The contract names the size
/// `spec_decode_dims` of the bytes (`None` where decoding fails) and
/// records the bytes as the image's source.
#[verifier::external_body]
pub(crate) fn decode_image(bytes: &[u8]) -> (r: Option<DecodedImage>)
    ensures
        match r {
            Some(d) => {
                &&& spec_decode_dims(bytes@) == Some((d.width, d.height))
                &&& d.source@ == bytes@
                &&& d.scale@ is None
            },
            None => spec_decode_dims(bytes@) is None,
        },
{
    let image = ::image::load_from_memory(bytes).ok()?;
    Some(DecodedImage { width: image.width(), height: image.height(), image, source: Ghost(bytes@), scale: Ghost(None) })
}

/// Scales a decoded image with `DynamicImage::resize_exact`, which keeps
/// its colour type. The contract states the new size and records the
/// scaling. `requires` keeps the buffers that the call allocates (an
/// intermediate one of `width * new_height` pixels of four `f32`, and the
/// result, at most sixteen bytes a pixel) within `isize::MAX` bytes, where
/// the allocation would panic, and the new size at least 1.
#[verifier::external_body]
pub(crate) fn resize_image(d: &DecodedImage, new_width: u32, new_height: u32, filter: ImageFilterType) -> (r:
    DecodedImage)
    requires
        d.scale@ is None,
        new_width >= 1,
        new_height >= 1,
        d.width as int * new_height as int * 16 <= isize::MAX,
        new_width as int * new_height as int * 16 <= isize::MAX,
    ensures
        r.width == new_width,
        r.height == new_height,
        r.source@ == d.source@,
        r.scale@ == Some((new_width, new_height, filter)),
{
    let image = d.image.resize_exact(new_width, new_height, filter.as_filter_type());
    DecodedImage { width: new_width, height: new_height, image, source: Ghost(d.source@), scale: Ghost(Some((new_width, new_height, filter))) }
}

/// The RGBA pixels that `DynamicImage::to_rgba8` gives of the image
/// decoded from `source` and, where `scale` says so, scaled.
pub uninterp spec fn spec_image_rgba(source: Seq<u8>, scale: Option<(u32, u32, ImageFilterType)>) -> Seq<u8>;

/// Converts a decoded image to 8-bit RGBA with `DynamicImage::to_rgba8`.
/// The contract names the pixels `spec_image_rgba` of the image's origin
/// and states the size and length the buffer has: `width * height * 4`
/// bytes, which `requires` keeps within `isize::MAX`.
#[verifier::external_body]
pub(crate) fn image_rgba(d: &DecodedImage) -> (r: RgbaFrame)
    requires
        d.width as int * d.height as int * 4 <= isize::MAX,
    ensures
        r.width == d.width,
        r.height == d.height,
        r.pixels@ == spec_image_rgba(d.source@, d.scale@),
        r.pixels@.len() == d.width as int * d.height as int * 4,
{
    let rgba = d.image.to_rgba8();
    RgbaFrame { width: rgba.width(), height: rgba.height(), pixels: rgba.into_raw() }
}

/// What `DynamicImage::write_to` with `ImageFormat::Png` writes for the
/// image decoded from `source` and, where `scale` says so, scaled: the
/// PNG file's bytes in the image's colour type, or nothing when the
/// encoder reports an error.
pub uninterp spec fn spec_image_png(source: Seq<u8>, scale: Option<(u32, u32, ImageFilterType)>) -> Option<Seq<u8>>;

/// Encodes a decoded image as a PNG file with `DynamicImage::write_to`.
/// The contract names the bytes `spec_image_png` of the image's origin,
/// `None` where the encoder fails, and states that a `Vec` holds at most
/// `isize::MAX` bytes.
#[verifier::external_body]
pub(crate) fn image_png(d: &DecodedImage) -> (r: Option<Vec<u8>>)
    ensures
        match r {
            Some(b) => spec_image_png(d.source@, d.scale@) == Some(b@) && b@.len() <= isize::MAX,
            None => spec_image_png(d.source@, d.scale@) is None,
        },
{
    let mut out: Vec<u8> = Vec::new();
    d.image.write_to(&mut std::io::Cursor::new(&mut out), ::image::ImageFormat::Png).ok()?;
    Some(out)
}

/// Whether the pixel whose bytes start at `idx` differs between the two
/// buffers: `Full` compares R, G and B; `Half` compares R and B; `All`
/// never reports a change (it re-sends whole images instead).
pub open spec fn pixel_changed(prev: Seq<u8>, next: Seq<u8>, idx: int, mode: ImageDiffMode) -> bool {
    match mode {
        ImageDiffMode::All => false,
        ImageDiffMode::Full => prev[idx] != next[idx] || prev[idx + 1] != next[idx + 1] || prev[idx
            + 2] != next[idx + 2],
        ImageDiffMode::Half => prev[idx] != next[idx] || prev[idx + 2] != next[idx + 2],
    }
}

/// Whether pixel `(x, y)` of a `width`-wide image changed.
pub open spec fn changed_at(
    prev: Seq<u8>,
    next: Seq<u8>,
    width: int,
    x: int,
    y: int,
    mode: ImageDiffMode,
) -> bool {
    pixel_changed(prev, next, (y * width + x) * 4, mode)
}

/// Compares one pixel of two RGBA buffers.
pub fn is_pixel_changed(prev_pixels: &[u8], next_pixels: &[u8], idx: usize, diff_mode: ImageDiffMode) -> (r: bool)
    requires
        diff_mode != ImageDiffMode::All ==> idx + 2 < prev_pixels@.len() && idx + 2 < next_pixels@.len(),
    ensures
        r == pixel_changed(prev_pixels@, next_pixels@, idx as int, diff_mode),
{
    match diff_mode {
        ImageDiffMode::All => false,
        ImageDiffMode::Full => prev_pixels[idx] != next_pixels[idx] || prev_pixels[idx + 1]
            != next_pixels[idx + 1] || prev_pixels[idx + 2] != next_pixels[idx + 2],
        ImageDiffMode::Half => prev_pixels[idx] != next_pixels[idx] || prev_pixels[idx + 2]
            != next_pixels[idx + 2],
    }
}

proof fn lemma_pixel_index(width: int, height: int, x: int, y: int)
    requires
        0 <= x < width,
        0 <= y < height,
    ensures
        0 <= y * width,
        y * width <= y * width + x,
        0 <= (y * width + x) * 4,
        (y * width + x) * 4 + 3 < width * height * 4,
        (y * width + x) * 4 == y * width * 4 + x * 4,
{
    assert(0 <= y * width) by (nonlinear_arith)
        requires
            0 <= x < width,
            0 <= y,
    ;
    assert((y * width + x) * 4 + 3 < width * height * 4) by (nonlinear_arith)
        requires
            0 <= x < width,
            0 <= y < height,
    ;
    assert(0 <= (y * width + x) * 4) by (nonlinear_arith)
        requires
            0 <= x,
            0 <= y,
            0 <= width,
    ;
    assert((y * width + x) * 4 == y * width * 4 + x * 4) by (nonlinear_arith);
}

/// The result `find_dirty_rect` owes for two same-sized frames: `rect`
/// is the smallest rectangle holding every changed pixel, and the empty
/// rectangle at the origin when nothing changed.
pub open spec fn is_dirty_bounding_box(
    prev: Seq<u8>,
    next: Seq<u8>,
    width: int,
    height: int,
    mode: ImageDiffMode,
    rect: DirtyRect,
) -> bool {
    let any = exists|x: int, y: int|
        0 <= x < width && 0 <= y < height && #[trigger] changed_at(prev, next, width, x, y, mode);
    if !any {
        rect == DirtyRect { x: 0, y: 0, width: 0, height: 0 }
    } else {
        let x0 = rect.x as int;
        let y0 = rect.y as int;
        let x1 = rect.x + rect.width - 1;
        let y1 = rect.y + rect.height - 1;
        &&& rect.width >= 1 && rect.height >= 1
        &&& x1 < width && y1 < height
        &&& forall|x: int, y: int|
            0 <= x < width && 0 <= y < height && #[trigger] changed_at(prev, next, width, x, y, mode)
                ==> x0 <= x <= x1 && y0 <= y <= y1
        &&& exists|y: int| 0 <= y < height && #[trigger] changed_at(prev, next, width, x0, y, mode)
        &&& exists|y: int| 0 <= y < height && #[trigger] changed_at(prev, next, width, x1, y, mode)
        &&& exists|x: int| 0 <= x < width && #[trigger] changed_at(prev, next, width, x, y0, mode)
        &&& exists|x: int| 0 <= x < width && #[trigger] changed_at(prev, next, width, x, y1, mode)
    }
}

/// The smallest rectangle that holds every changed pixel of two frames;
/// `None` when the frames differ in size or the mode is `All`.
pub fn find_dirty_rect(prev: &RgbaFrame, next: &RgbaFrame, diff_mode: ImageDiffMode) -> (r: Option<DirtyRect>)
    requires
        prev.width == next.width && prev.height == next.height && diff_mode != ImageDiffMode::All
            ==> frame_complete(prev) && frame_complete(next),
    ensures
        match r {
            None => prev.width != next.width || prev.height != next.height || diff_mode == ImageDiffMode::All,
            Some(rect) => prev.width == next.width && prev.height == next.height && diff_mode
                != ImageDiffMode::All && is_dirty_bounding_box(
                prev.pixels@,
                next.pixels@,
                prev.width as int,
                prev.height as int,
                diff_mode,
                rect,
            ),
        },
{
    if prev.width != next.width || prev.height != next.height {
        return None;
    }
    if let ImageDiffMode::All = diff_mode {
        return None;
    }
    let width = prev.width as usize;
    let height = prev.height as usize;
    let ghost w = width as int;
    let ghost h = height as int;
    let ghost pp = prev.pixels@;
    let ghost np = next.pixels@;
    let mut min_x: usize = width;
    let mut min_y: usize = height;
    let mut max_x: usize = 0;
    let mut max_y: usize = 0;
    let mut any_changed = false;
    // witnesses of the extreme changed pixels
    let ghost mut wx0: (int, int) = (0, 0);
    let ghost mut wx1: (int, int) = (0, 0);
    let ghost mut wy0: (int, int) = (0, 0);
    let ghost mut wy1: (int, int) = (0, 0);
    let mut y: usize = 0;
    while y < height
        invariant
            w == width && h == height && pp == prev.pixels@ && np == next.pixels@,
            prev.width == next.width && prev.height == next.height,
            width == prev.width && height == prev.height,
            diff_mode != ImageDiffMode::All,
            frame_complete(prev) && frame_complete(next),
            0 <= y <= height,
            !any_changed ==> forall|a: int, b: int|
                0 <= a < w && 0 <= b < y ==> !#[trigger] changed_at(pp, np, w, a, b, diff_mode),
            any_changed ==> {
                &&& min_x <= max_x < width && min_y <= max_y < y
                &&& forall|a: int, b: int|
                    0 <= a < w && 0 <= b < y && #[trigger] changed_at(pp, np, w, a, b, diff_mode)
                        ==> min_x <= a <= max_x && min_y <= b <= max_y
                &&& wx0.0 == min_x && 0 <= wx0.1 < y && changed_at(pp, np, w, wx0.0, wx0.1, diff_mode)
                &&& wx1.0 == max_x && 0 <= wx1.1 < y && changed_at(pp, np, w, wx1.0, wx1.1, diff_mode)
                &&& wy0.1 == min_y && 0 <= wy0.0 < w && changed_at(pp, np, w, wy0.0, wy0.1, diff_mode)
                &&& wy1.1 == max_y && 0 <= wy1.0 < w && changed_at(pp, np, w, wy1.0, wy1.1, diff_mode)
            },
        decreases height - y,
    {
        let mut x: usize = 0;
        while x < width
            invariant
                w == width && h == height && pp == prev.pixels@ && np == next.pixels@,
                width == prev.width && height == prev.height,
                prev.width == next.width && prev.height == next.height,
                diff_mode != ImageDiffMode::All,
                frame_complete(prev) && frame_complete(next),
                0 <= y < height,
                0 <= x <= width,
                !any_changed ==> forall|a: int, b: int|
                    0 <= a < w && 0 <= b < y + 1 && (b < y || a < x) ==> !#[trigger] changed_at(pp, np, w, a, b, diff_mode),
                any_changed ==> {
                    &&& min_x <= max_x < width && min_y <= max_y <= y
                    &&& forall|a: int, b: int|
                        0 <= a < w && 0 <= b < y + 1 && (b < y || a < x) && #[trigger] changed_at(pp, np, w, a, b, diff_mode)
                            ==> min_x <= a <= max_x && min_y <= b <= max_y
                    &&& wx0.0 == min_x && 0 <= wx0.1 <= y && changed_at(pp, np, w, wx0.0, wx0.1, diff_mode)
                    &&& wx1.0 == max_x && 0 <= wx1.1 <= y && changed_at(pp, np, w, wx1.0, wx1.1, diff_mode)
                    &&& wy0.1 == min_y && 0 <= wy0.0 < w && changed_at(pp, np, w, wy0.0, wy0.1, diff_mode)
                    &&& wy1.1 == max_y && 0 <= wy1.0 < w && changed_at(pp, np, w, wy1.0, wy1.1, diff_mode)
                },
            decreases width - x,
        {
            let plen = prev.pixels.len();
            proof {
                lemma_pixel_index(w, h, x as int, y as int);
                assert(w * h * 4 <= plen);
            }
            let idx = (y * width + x) * 4;
            let c = is_pixel_changed(prev.pixels.as_slice(), next.pixels.as_slice(), idx, diff_mode);
            assert(c == changed_at(pp, np, w, x as int, y as int, diff_mode));
            if c {
                if !any_changed {
                    proof {
                        wx0 = (x as int, y as int);
                        wx1 = (x as int, y as int);
                        wy0 = (x as int, y as int);
                        wy1 = (x as int, y as int);
                    }
                    min_x = x;
                    max_x = x;
                    min_y = y;
                    max_y = y;
                    any_changed = true;
                } else {
                    if x < min_x {
                        min_x = x;
                        proof { wx0 = (x as int, y as int); }
                    }
                    if x > max_x {
                        max_x = x;
                        proof { wx1 = (x as int, y as int); }
                    }
                    if y < min_y {
                        min_y = y;
                        proof { wy0 = (x as int, y as int); }
                    }
                    if y > max_y {
                        max_y = y;
                        proof { wy1 = (x as int, y as int); }
                    }
                }
            }
            x = x + 1;
        }
        y = y + 1;
    }
    if !any_changed {
        return Some(DirtyRect { x: 0, y: 0, width: 0, height: 0 });
    }
    let rect = DirtyRect {
        x: min_x as u32,
        y: min_y as u32,
        width: (max_x - min_x + 1) as u32,
        height: (max_y - min_y + 1) as u32,
    };
    proof {
        assert(changed_at(pp, np, w, wx0.0, wx0.1, diff_mode));
        assert(changed_at(pp, np, w, wx1.0, wx1.1, diff_mode));
        assert(changed_at(pp, np, w, wy0.0, wy0.1, diff_mode));
        assert(changed_at(pp, np, w, wy1.0, wy1.1, diff_mode));
    }
    Some(rect)
}

/// Whether a changed pixel is met when row `y` is sampled from column
/// `x` up to (not including) `x_end`, every `step` columns.
pub open spec fn row_sample_changed(
    prev: Seq<u8>,
    next: Seq<u8>,
    width: int,
    y: int,
    x: int,
    x_end: int,
    step: int,
    mode: ImageDiffMode,
) -> bool
    decreases x_end - x,
{
    if step <= 0 || x >= x_end {
        false
    } else if x + step >= x_end {
        changed_at(prev, next, width, x, y, mode)
    } else {
        changed_at(prev, next, width, x, y, mode) || row_sample_changed(prev, next, width, y, x + step, x_end, step, mode)
    }
}

/// Whether a changed pixel is met when the rows `y, y + step, ...` below
/// `y_end` of a tile spanning columns `x0..x_end` are sampled.
pub open spec fn tile_sample_changed(
    prev: Seq<u8>,
    next: Seq<u8>,
    width: int,
    y: int,
    y_end: int,
    x0: int,
    x_end: int,
    step: int,
    mode: ImageDiffMode,
) -> bool
    decreases y_end - y,
{
    if step <= 0 || y >= y_end {
        false
    } else if y + step >= y_end {
        row_sample_changed(prev, next, width, y, x0, x_end, step, mode)
    } else {
        row_sample_changed(prev, next, width, y, x0, x_end, step, mode) || tile_sample_changed(prev, next, width, y + step, y_end, x0, x_end, step, mode)
    }
}

pub open spec fn min_int(a: int, b: int) -> int {
    if a < b {
        a
    } else {
        b
    }
}

/// The changed tiles of one tile row, from column `tx` rightwards.
pub open spec fn dirty_tiles_in_row(
    prev: Seq<u8>,
    next: Seq<u8>,
    width: int,
    height: int,
    tile: int,
    step: int,
    ty: int,
    tx: int,
    mode: ImageDiffMode,
) -> Seq<DirtyRect>
    decreases width - tx,
{
    if tile <= 0 || tx >= width {
        Seq::empty()
    } else {
        let rw = min_int(width - tx, tile);
        let rh = min_int(height - ty, tile);
        let rest = if tx + tile >= width {
            Seq::empty()
        } else {
            dirty_tiles_in_row(prev, next, width, height, tile, step, ty, tx + tile, mode)
        };
        if tile_sample_changed(prev, next, width, ty, ty + rh, tx, tx + rw, step, mode) {
            seq![DirtyRect { x: tx as u32, y: ty as u32, width: rw as u32, height: rh as u32 }] + rest
        } else {
            rest
        }
    }
}

/// The changed tiles from tile row `ty` downwards, row by row.
pub open spec fn dirty_tiles_from(
    prev: Seq<u8>,
    next: Seq<u8>,
    width: int,
    height: int,
    tile: int,
    step: int,
    ty: int,
    mode: ImageDiffMode,
) -> Seq<DirtyRect>
    decreases height - ty,
{
    if tile <= 0 || ty >= height {
        Seq::empty()
    } else {
        let rest = if ty + tile >= height {
            Seq::empty()
        } else {
            dirty_tiles_from(prev, next, width, height, tile, step, ty + tile, mode)
        };
        dirty_tiles_in_row(prev, next, width, height, tile, step, ty, 0, mode) + rest
    }
}

/// Splits two same-sized frames into `tile_grid`-sized tiles (row by row,
/// left to right) and returns those in which a sampled pixel changed; the
/// pixels of each tile are sampled every `skip_step` rows and columns.
/// `None` when the frames differ in size or the mode is `All`.
pub fn find_dirty_tiles(
    prev: &RgbaFrame,
    next: &RgbaFrame,
    diff_mode: ImageDiffMode,
    tile_grid: u32,
    skip_step: u32,
) -> (r: Option<Vec<DirtyRect>>)
    requires
        prev.width == next.width && prev.height == next.height && diff_mode != ImageDiffMode::All
            ==> frame_complete(prev) && frame_complete(next),
    ensures
        match r {
            None => prev.width != next.width || prev.height != next.height || diff_mode == ImageDiffMode::All,
            Some(v) => prev.width == next.width && prev.height == next.height && diff_mode
                != ImageDiffMode::All && v@ == dirty_tiles_from(
                prev.pixels@,
                next.pixels@,
                next.width as int,
                next.height as int,
                if tile_grid == 0 { 1 } else { tile_grid as int },
                if skip_step == 0 { 1 } else { skip_step as int },
                0,
                diff_mode,
            ),
        },
{
    if prev.width != next.width || prev.height != next.height {
        return None;
    }
    if let ImageDiffMode::All = diff_mode {
        return None;
    }
    let width = next.width as usize;
    let height = next.height as usize;
    let tile: usize = if tile_grid == 0 { 1 } else { tile_grid as usize };
    let step: usize = if skip_step == 0 { 1 } else { skip_step as usize };
    let ghost w = width as int;
    let ghost h = height as int;
    let ghost pp = prev.pixels@;
    let ghost np = next.pixels@;
    let ghost total = dirty_tiles_from(pp, np, w, h, tile as int, step as int, 0, diff_mode);
    let mut dirty: Vec<DirtyRect> = Vec::new();
    let mut tile_y: usize = 0;
    while tile_y < height
        invariant
            w == width && h == height && pp == prev.pixels@ && np == next.pixels@,
            width == prev.width && height == prev.height,
            prev.width == next.width && prev.height == next.height,
            diff_mode != ImageDiffMode::All,
            frame_complete(prev) && frame_complete(next),
            tile >= 1 && step >= 1,
            tile as int == (if tile_grid == 0 { 1 } else { tile_grid as int }),
            step as int == (if skip_step == 0 { 1 } else { skip_step as int }),
            total == dirty_tiles_from(pp, np, w, h, tile as int, step as int, 0, diff_mode),
            tile_y <= height,
            dirty@ + dirty_tiles_from(pp, np, w, h, tile as int, step as int, tile_y as int, diff_mode) == total,
        decreases height - tile_y,
    {
        let rect_h = if height - tile_y < tile { height - tile_y } else { tile };
        let ghost row_start = dirty@;
        let mut tile_x: usize = 0;
        while tile_x < width
            invariant
                w == width && h == height && pp == prev.pixels@ && np == next.pixels@,
                width == prev.width && height == prev.height,
                prev.width == next.width && prev.height == next.height,
                diff_mode != ImageDiffMode::All,
                frame_complete(prev) && frame_complete(next),
                tile >= 1 && step >= 1,
                tile_y < height,
                rect_h as int == min_int(h - tile_y, tile as int),
                tile_x <= width,
                row_start + dirty_tiles_in_row(pp, np, w, h, tile as int, step as int, tile_y as int, 0, diff_mode)
                    == dirty@ + dirty_tiles_in_row(pp, np, w, h, tile as int, step as int, tile_y as int, tile_x as int, diff_mode),
            decreases width - tile_x,
        {
            let rect_w = if width - tile_x < tile { width - tile_x } else { tile };
            let changed = tile_changed(prev, next, diff_mode, tile_x, tile_y, rect_w, rect_h, step);
            let ghost rest = dirty_tiles_in_row(pp, np, w, h, tile as int, step as int, tile_y as int, tile_x + tile, diff_mode);
            if changed {
                let r = DirtyRect {
                    x: tile_x as u32,
                    y: tile_y as u32,
                    width: rect_w as u32,
                    height: rect_h as u32,
                };
                dirty.push(r);
                assert(dirty_tiles_in_row(pp, np, w, h, tile as int, step as int, tile_y as int, tile_x as int, diff_mode)
                    == seq![r] + rest);
            }
            if width - tile_x <= tile {
                tile_x = width;
                assert(rest == Seq::<DirtyRect>::empty());
            } else {
                tile_x = tile_x + tile;
            }
        }
        assert(dirty_tiles_from(pp, np, w, h, tile as int, step as int, tile_y as int, diff_mode)
            == dirty_tiles_in_row(pp, np, w, h, tile as int, step as int, tile_y as int, 0, diff_mode)
                + dirty_tiles_from(pp, np, w, h, tile as int, step as int, tile_y + tile, diff_mode));
        if height - tile_y <= tile {
            assert(dirty_tiles_from(pp, np, w, h, tile as int, step as int, tile_y + tile, diff_mode)
                == Seq::<DirtyRect>::empty());
            tile_y = height;
        } else {
            tile_y = tile_y + tile;
        }
    }
    Some(dirty)
}

/// Whether a sampled pixel of one tile changed.
fn tile_changed(
    prev: &RgbaFrame,
    next: &RgbaFrame,
    diff_mode: ImageDiffMode,
    tile_x: usize,
    tile_y: usize,
    rect_w: usize,
    rect_h: usize,
    step: usize,
) -> (r: bool)
    requires
        prev.width == next.width && prev.height == next.height,
        frame_complete(prev) && frame_complete(next),
        diff_mode != ImageDiffMode::All,
        step >= 1,
        tile_x + rect_w <= prev.width,
        tile_y + rect_h <= prev.height,
    ensures
        r == tile_sample_changed(
            prev.pixels@,
            next.pixels@,
            prev.width as int,
            tile_y as int,
            tile_y + rect_h,
            tile_x as int,
            tile_x + rect_w,
            step as int,
            diff_mode,
        ),
{
    let width = prev.width as usize;
    let ghost w = width as int;
    let ghost h = prev.height as int;
    let ghost pp = prev.pixels@;
    let ghost np = next.pixels@;
    let y_end = tile_y + rect_h;
    let x_end = tile_x + rect_w;
    let mut y = tile_y;
    while y < y_end
        invariant
            w == width && h == prev.height && pp == prev.pixels@ && np == next.pixels@,
            width == prev.width,
            prev.width == next.width && prev.height == next.height,
            frame_complete(prev) && frame_complete(next),
            diff_mode != ImageDiffMode::All,
            step >= 1,
            tile_x + rect_w <= prev.width,
            y_end == tile_y + rect_h && y_end <= prev.height,
            x_end == tile_x + rect_w,
            tile_y <= y,
            tile_sample_changed(pp, np, w, tile_y as int, y_end as int, tile_x as int, x_end as int, step as int, diff_mode)
                == tile_sample_changed(pp, np, w, y as int, y_end as int, tile_x as int, x_end as int, step as int, diff_mode),
        decreases y_end - y,
    {
        let mut x = tile_x;
        while x < x_end
            invariant
                w == width && h == prev.height && pp == prev.pixels@ && np == next.pixels@,
                width == prev.width,
                prev.width == next.width && prev.height == next.height,
                frame_complete(prev) && frame_complete(next),
                diff_mode != ImageDiffMode::All,
                step >= 1,
                x_end == tile_x + rect_w && x_end <= prev.width,
                y < y_end && y_end <= prev.height,
                y_end == tile_y + rect_h,
                tile_x <= x,
                tile_y <= y,
                tile_sample_changed(pp, np, w, tile_y as int, y_end as int, tile_x as int, x_end as int, step as int, diff_mode)
                    == tile_sample_changed(pp, np, w, y as int, y_end as int, tile_x as int, x_end as int, step as int, diff_mode),
                row_sample_changed(pp, np, w, y as int, tile_x as int, x_end as int, step as int, diff_mode)
                    == row_sample_changed(pp, np, w, y as int, x as int, x_end as int, step as int, diff_mode),
            decreases x_end - x,
        {
            let plen = prev.pixels.len();
            proof {
                lemma_pixel_index(w, h, x as int, y as int);
                assert(w * h * 4 <= plen);
            }
            let idx = (y * width + x) * 4;
            if is_pixel_changed(prev.pixels.as_slice(), next.pixels.as_slice(), idx, diff_mode) {
                assert(changed_at(pp, np, w, x as int, y as int, diff_mode));
                assert(row_sample_changed(pp, np, w, y as int, x as int, x_end as int, step as int, diff_mode));
                assert(tile_sample_changed(pp, np, w, y as int, y_end as int, tile_x as int, x_end as int, step as int, diff_mode));
                return true;
            }
            if x_end - x <= step {
                x = x_end;
            } else {
                x = x + step;
            }
        }
        assert(!row_sample_changed(pp, np, w, y as int, x as int, x_end as int, step as int, diff_mode));
        if y_end - y <= step {
            y = y_end;
        } else {
            y = y + step;
        }
    }
    assert(!tile_sample_changed(pp, np, w, y as int, y_end as int, tile_x as int, x_end as int, step as int, diff_mode));
    false
}

/// The bytes of the rows `y..y_end` of `rect` in `frame`, row after row.
pub open spec fn rect_rows(pixels: Seq<u8>, frame_width: int, rect: DirtyRect, y: int) -> Seq<u8>
    decreases rect.y + rect.height - y,
{
    if y >= rect.y + rect.height {
        Seq::empty()
    } else {
        let start = y * frame_width * 4 + rect.x * 4;
        pixels.subrange(start, start + rect.width * 4) + rect_rows(pixels, frame_width, rect, y + 1)
    }
}

/// The RGBA bytes of a rectangle of the frame, row by row.
pub fn extract_rect_rgba(frame: &RgbaFrame, rect: DirtyRect) -> (r: Vec<u8>)
    requires
        frame_complete(frame),
        rect.x + rect.width <= frame.width,
        rect.y + rect.height <= frame.height,
    ensures
        r@ == rect_rows(frame.pixels@, frame.width as int, rect, rect.y as int),
{
    let plen = frame.pixels.len();
    let ghost fw = frame.width as int;
    let ghost fh = frame.height as int;
    let mut out: Vec<u8> = Vec::new();
    let mut y: u32 = rect.y;
    let y_end: u32 = rect.y + rect.height;
    while y < y_end
        invariant
            rect.x + rect.width <= frame.width,
            y_end == rect.y + rect.height,
            y_end <= frame.height,
            rect.y <= y <= y_end,
            plen == frame.pixels@.len(),
            fw == frame.width && fh == frame.height,
            frame_complete(frame),
            out@ + rect_rows(frame.pixels@, fw, rect, y as int) == rect_rows(frame.pixels@, fw, rect, rect.y as int),
        decreases y_end - y,
    {
        proof {
            assert((y as int) * fw * 4 + rect.x * 4 + rect.width * 4 <= fw * fh * 4) by (nonlinear_arith)
                requires
                    rect.x + rect.width <= fw,
                    y < fh,
                    0 <= y,
            ;
            assert(fw * 4 <= fw * fh * 4) by (nonlinear_arith)
                requires
                    y < fh,
                    0 <= y,
                    0 <= fw,
            ;
            assert(0 <= (y as int) * fw * 4) by (nonlinear_arith)
                requires
                    0 <= y,
                    0 <= fw,
            ;
            assert(rect.width * 4 <= fw * 4);
        }
        let stride = frame.width as usize * 4;
        let row_bytes = rect.width as usize * 4;
        proof {
            assert((y as int) * stride == (y as int) * fw * 4) by (nonlinear_arith)
                requires stride == fw * 4;
        }
        let start = y as usize * stride + rect.x as usize * 4;
        let end = start + row_bytes;
        let mut k: usize = start;
        let ghost before = out@;
        while k < end
            invariant
                end == start + row_bytes,
                end <= frame.pixels@.len(),
                start <= k <= end,
                out@ == before + frame.pixels@.subrange(start as int, k as int),
            decreases end - k,
        {
            out.push(frame.pixels[k]);
            assert(frame.pixels@.subrange(start as int, k + 1) == frame.pixels@.subrange(start as int, k as int).push(frame.pixels@[k as int]));
            k = k + 1;
        }
        y = y + 1;
    }
    out
}

} // verus!

verus! {

/// The tiles of a tile row lie inside the frame.
pub proof fn lemma_row_tiles_in_bounds(
    prev: Seq<u8>,
    next: Seq<u8>,
    width: int,
    height: int,
    tile: int,
    step: int,
    ty: int,
    tx: int,
    mode: ImageDiffMode,
)
    requires
        0 <= ty < height <= u32::MAX,
        0 <= tx,
        width <= u32::MAX,
    ensures
        forall|k: int|
            0 <= k < dirty_tiles_in_row(prev, next, width, height, tile, step, ty, tx, mode).len() ==> {
                let r = #[trigger] dirty_tiles_in_row(prev, next, width, height, tile, step, ty, tx, mode)[k];
                r.x + r.width <= width && r.y + r.height <= height
            },
    decreases width - tx,
{
    if tile > 0 && tx < width {
        let rw = min_int(width - tx, tile);
        let rh = min_int(height - ty, tile);
        let rest = if tx + tile >= width {
            Seq::empty()
        } else {
            dirty_tiles_in_row(prev, next, width, height, tile, step, ty, tx + tile, mode)
        };
        if tx + tile < width {
            lemma_row_tiles_in_bounds(prev, next, width, height, tile, step, ty, tx + tile, mode);
        }
        let s = dirty_tiles_in_row(prev, next, width, height, tile, step, ty, tx, mode);
        let d = DirtyRect { x: tx as u32, y: ty as u32, width: rw as u32, height: rh as u32 };
        assert forall|k: int| 0 <= k < s.len() implies {
            let r = #[trigger] s[k];
            r.x + r.width <= width && r.y + r.height <= height
        } by {
            if tile_sample_changed(prev, next, width, ty, ty + rh, tx, tx + rw, step, mode) {
                assert(s == seq![d] + rest);
                if k > 0 {
                    assert(s[k] == rest[k - 1]);
                }
            } else {
                assert(s == rest);
            }
        }
    }
}

/// The changed tiles lie inside the frame.
pub proof fn lemma_tiles_in_bounds(
    prev: Seq<u8>,
    next: Seq<u8>,
    width: int,
    height: int,
    tile: int,
    step: int,
    ty: int,
    mode: ImageDiffMode,
)
    requires
        0 <= ty,
        width <= u32::MAX,
        height <= u32::MAX,
    ensures
        forall|k: int|
            0 <= k < dirty_tiles_from(prev, next, width, height, tile, step, ty, mode).len() ==> {
                let r = #[trigger] dirty_tiles_from(prev, next, width, height, tile, step, ty, mode)[k];
                r.x + r.width <= width && r.y + r.height <= height
            },
    decreases height - ty,
{
    if tile > 0 && ty < height {
        let rest = if ty + tile >= height {
            Seq::empty()
        } else {
            dirty_tiles_from(prev, next, width, height, tile, step, ty + tile, mode)
        };
        if ty + tile < height {
            lemma_tiles_in_bounds(prev, next, width, height, tile, step, ty + tile, mode);
        }
        lemma_row_tiles_in_bounds(prev, next, width, height, tile, step, ty, 0, mode);
        let row = dirty_tiles_in_row(prev, next, width, height, tile, step, ty, 0, mode);
        let s = dirty_tiles_from(prev, next, width, height, tile, step, ty, mode);
        assert(s == row + rest);
        assert forall|k: int| 0 <= k < s.len() implies {
            let r = #[trigger] s[k];
            r.x + r.width <= width && r.y + r.height <= height
        } by {
            if k < row.len() {
                assert(s[k] == row[k]);
            } else {
                assert(s[k] == rest[k - row.len()]);
            }
        }
    }
}

} // verus!

verus! {

/// Pixel `(x, y)` lies inside rectangle `r`.
pub open spec fn rect_covers(r: DirtyRect, x: int, y: int) -> bool {
    r.x <= x < r.x + r.width && r.y <= y < r.y + r.height
}

proof fn lemma_row_sample_hits(
    prev: Seq<u8>,
    next: Seq<u8>,
    width: int,
    y: int,
    x0: int,
    x_end: int,
    step: int,
    mode: ImageDiffMode,
    k: nat,
)
    requires
        step >= 1,
        x0 + k * step < x_end,
        changed_at(prev, next, width, x0 + k * step, y, mode),
    ensures
        row_sample_changed(prev, next, width, y, x0, x_end, step, mode),
    decreases k,
{
    if k == 0 {
        assert(k * step == 0) by (nonlinear_arith)
            requires
                k == 0,
        ;
    }
    if k > 0 {
        assert(x0 + step + (k - 1) * step == x0 + k * step && k * step >= step) by (nonlinear_arith)
            requires
                k >= 1,
                step >= 1,
        ;
        lemma_row_sample_hits(prev, next, width, y, x0 + step, x_end, step, mode, (k - 1) as nat);
    }
}

proof fn lemma_tile_sample_hits(
    prev: Seq<u8>,
    next: Seq<u8>,
    width: int,
    y0: int,
    y_end: int,
    x0: int,
    x_end: int,
    step: int,
    mode: ImageDiffMode,
    j: nat,
    k: nat,
)
    requires
        step >= 1,
        y0 + j * step < y_end,
        x0 + k * step < x_end,
        changed_at(prev, next, width, x0 + k * step, y0 + j * step, mode),
    ensures
        tile_sample_changed(prev, next, width, y0, y_end, x0, x_end, step, mode),
    decreases j,
{
    if j == 0 {
        assert(j * step == 0) by (nonlinear_arith)
            requires
                j == 0,
        ;
        lemma_row_sample_hits(prev, next, width, y0, x0, x_end, step, mode, k);
    } else {
        assert(y0 + step + (j - 1) * step == y0 + j * step && j * step >= step) by (nonlinear_arith)
            requires
                j >= 1,
                step >= 1,
        ;
        lemma_tile_sample_hits(prev, next, width, y0 + step, y_end, x0, x_end, step, mode, (j - 1) as nat, k);
    }
}

proof fn lemma_row_tiles_cover(
    prev: Seq<u8>,
    next: Seq<u8>,
    width: int,
    height: int,
    tile: int,
    step: int,
    ty: int,
    tx: int,
    mode: ImageDiffMode,
    m: nat,
    k: nat,
    j: nat,
)
    requires
        tile >= 1,
        step >= 1,
        0 <= ty,
        0 <= tx,
        width <= u32::MAX,
        height <= u32::MAX,
        k * step < tile,
        j * step < tile,
        tx + m * tile + k * step < width,
        ty + j * step < height,
        changed_at(prev, next, width, tx + m * tile + k * step, ty + j * step, mode),
    ensures
        exists|i: int|
            0 <= i < dirty_tiles_in_row(prev, next, width, height, tile, step, ty, tx, mode).len() && rect_covers(
                #[trigger] dirty_tiles_in_row(prev, next, width, height, tile, step, ty, tx, mode)[i],
                tx + m * tile + k * step,
                ty + j * step,
            ),
    decreases m,
{
    let x = tx + m * tile + k * step;
    let y = ty + j * step;
    assert(m * tile >= 0 && k * step >= 0 && j * step >= 0) by (nonlinear_arith)
        requires
            tile >= 1,
            step >= 1,
    ;
    let rw = min_int(width - tx, tile);
    let rh = min_int(height - ty, tile);
    let rest = if tx + tile >= width {
        Seq::empty()
    } else {
        dirty_tiles_in_row(prev, next, width, height, tile, step, ty, tx + tile, mode)
    };
    let all = dirty_tiles_in_row(prev, next, width, height, tile, step, ty, tx, mode);
    if m == 0 {
        assert(m * tile == 0) by (nonlinear_arith)
            requires
                m == 0,
        ;
        assert(x == tx + k * step);
        assert(x < tx + rw && y < ty + rh);
        lemma_tile_sample_hits(prev, next, width, ty, ty + rh, tx, tx + rw, step, mode, j, k);
        let r = DirtyRect { x: tx as u32, y: ty as u32, width: rw as u32, height: rh as u32 };
        assert(all == seq![r] + rest);
        assert(all[0] == r);
        assert(r.x as int == tx && r.width as int == rw && r.y as int == ty && r.height as int == rh);
        assert(rect_covers(all[0], x, y));
    } else {
        assert(tx + tile + (m - 1) * tile + k * step == x && m * tile >= tile) by (nonlinear_arith)
            requires
                m >= 1,
                tile >= 1,
                x == tx + m * tile + k * step,
        ;
        lemma_row_tiles_cover(prev, next, width, height, tile, step, ty, tx + tile, mode, (m - 1) as nat, k, j);
        let i = choose|i: int|
            0 <= i < rest.len() && rect_covers(#[trigger] rest[i], x, y);
        if tile_sample_changed(prev, next, width, ty, ty + rh, tx, tx + rw, step, mode) {
            let r = DirtyRect { x: tx as u32, y: ty as u32, width: rw as u32, height: rh as u32 };
            assert(all == seq![r] + rest);
            assert(all[i + 1] == rest[i]);
        } else {
            assert(all == rest);
        }
    }
}

proof fn lemma_tiles_cover(
    prev: Seq<u8>,
    next: Seq<u8>,
    width: int,
    height: int,
    tile: int,
    step: int,
    ty: int,
    mode: ImageDiffMode,
    n: nat,
    m: nat,
    k: nat,
    j: nat,
)
    requires
        tile >= 1,
        step >= 1,
        0 <= ty,
        width <= u32::MAX,
        height <= u32::MAX,
        k * step < tile,
        j * step < tile,
        m * tile + k * step < width,
        ty + n * tile + j * step < height,
        changed_at(prev, next, width, m * tile + k * step, ty + n * tile + j * step, mode),
    ensures
        exists|i: int|
            0 <= i < dirty_tiles_from(prev, next, width, height, tile, step, ty, mode).len() && rect_covers(
                #[trigger] dirty_tiles_from(prev, next, width, height, tile, step, ty, mode)[i],
                m * tile + k * step,
                ty + n * tile + j * step,
            ),
    decreases n,
{
    let x = m * tile + k * step;
    let y = ty + n * tile + j * step;
    assert(n * tile >= 0 && j * step >= 0) by (nonlinear_arith)
        requires
            tile >= 1,
            step >= 1,
    ;
    let row = dirty_tiles_in_row(prev, next, width, height, tile, step, ty, 0, mode);
    let rest = if ty + tile >= height {
        Seq::empty()
    } else {
        dirty_tiles_from(prev, next, width, height, tile, step, ty + tile, mode)
    };
    let all = dirty_tiles_from(prev, next, width, height, tile, step, ty, mode);
    assert(all == row + rest);
    if n == 0 {
        assert(n * tile == 0) by (nonlinear_arith)
            requires
                n == 0,
        ;
        assert(0 + m * tile + k * step == x);
        assert(ty + j * step == y);
        lemma_row_tiles_cover(prev, next, width, height, tile, step, ty, 0, mode, m, k, j);
        let i = choose|i: int| 0 <= i < row.len() && rect_covers(#[trigger] row[i], x, y);
        assert(all[i] == row[i]);
    } else {
        assert(ty + tile + (n - 1) * tile + j * step == y && n * tile >= tile) by (nonlinear_arith)
            requires
                n >= 1,
                tile >= 1,
                y == ty + n * tile + j * step,
        ;
        lemma_tiles_cover(prev, next, width, height, tile, step, ty + tile, mode, (n - 1) as nat, m, k, j);
        let i = choose|i: int| 0 <= i < rest.len() && rect_covers(#[trigger] rest[i], x, y);
        assert(all[row.len() + i] == rest[i]);
    }
}

/// Every sampled change is reported: a pixel `(x, y)` of the frame that
/// lies on the sampling grid of its tile (every `step` columns and rows
/// from the tile's top left corner) and changed between the two frames is
/// covered by one of the tiles that `find_dirty_tiles` returns, the
/// narrower and lower tiles at the right and bottom edges included.
pub proof fn lemma_dirty_tiles_cover_changes(
    prev: Seq<u8>,
    next: Seq<u8>,
    width: int,
    height: int,
    tile: int,
    step: int,
    mode: ImageDiffMode,
    x: int,
    y: int,
)
    requires
        tile >= 1,
        step >= 1,
        0 <= x < width,
        0 <= y < height,
        width <= u32::MAX,
        height <= u32::MAX,
        (x % tile) % step == 0,
        (y % tile) % step == 0,
        changed_at(prev, next, width, x, y, mode),
    ensures
        exists|i: int|
            0 <= i < dirty_tiles_from(prev, next, width, height, tile, step, 0, mode).len() && rect_covers(
                #[trigger] dirty_tiles_from(prev, next, width, height, tile, step, 0, mode)[i],
                x,
                y,
            ),
{
    broadcast use vstd::arithmetic::div_mod::lemma_fundamental_div_mod;
    broadcast use vstd::arithmetic::div_mod::lemma_mod_pos_bound;
    broadcast use vstd::arithmetic::div_mod::lemma_div_pos_is_pos;
    let xm = x % tile;
    let ym = y % tile;
    assert(x == tile * (x / tile) + xm);
    assert(y == tile * (y / tile) + ym);
    assert(0 <= xm < tile && 0 <= ym < tile);
    assert(xm == step * (xm / step) + xm % step);
    assert(ym == step * (ym / step) + ym % step);
    assert(x / tile >= 0 && y / tile >= 0 && xm / step >= 0 && ym / step >= 0);
    let m = (x / tile) as nat;
    let n = (y / tile) as nat;
    let k = (xm / step) as nat;
    let j = (ym / step) as nat;
    assert(x == m * tile + k * step && y == 0 + n * tile + j * step && k * step < tile && j * step < tile) by (
    nonlinear_arith)
        requires
            x == tile * m + xm,
            y == tile * n + ym,
            xm == step * k,
            ym == step * j,
            0 <= xm < tile,
            0 <= ym < tile,
    ;
    lemma_tiles_cover(prev, next, width, height, tile, step, 0, mode, n, m, k, j);
}


proof fn lemma_row_sample_witness(
    prev: Seq<u8>,
    next: Seq<u8>,
    width: int,
    y: int,
    x: int,
    x_end: int,
    step: int,
    mode: ImageDiffMode,
)
    requires
        row_sample_changed(prev, next, width, y, x, x_end, step, mode),
    ensures
        exists|xx: int| x <= xx < x_end && #[trigger] changed_at(prev, next, width, xx, y, mode),
    decreases x_end - x,
{
    if !changed_at(prev, next, width, x, y, mode) {
        lemma_row_sample_witness(prev, next, width, y, x + step, x_end, step, mode);
    }
}

proof fn lemma_tile_sample_witness(
    prev: Seq<u8>,
    next: Seq<u8>,
    width: int,
    y: int,
    y_end: int,
    x0: int,
    x_end: int,
    step: int,
    mode: ImageDiffMode,
)
    requires
        tile_sample_changed(prev, next, width, y, y_end, x0, x_end, step, mode),
    ensures
        exists|xx: int, yy: int|
            x0 <= xx < x_end && y <= yy < y_end && #[trigger] changed_at(prev, next, width, xx, yy, mode),
    decreases y_end - y,
{
    if row_sample_changed(prev, next, width, y, x0, x_end, step, mode) {
        lemma_row_sample_witness(prev, next, width, y, x0, x_end, step, mode);
        let xx = choose|xx: int| x0 <= xx < x_end && #[trigger] changed_at(prev, next, width, xx, y, mode);
        assert(changed_at(prev, next, width, xx, y, mode));
    } else {
        lemma_tile_sample_witness(prev, next, width, y + step, y_end, x0, x_end, step, mode);
    }
}

/// Whether rectangle `r` of a `width` by `height` frame holds a pixel that
/// changed between the two frames.
pub open spec fn rect_has_change(
    prev: Seq<u8>,
    next: Seq<u8>,
    width: int,
    height: int,
    mode: ImageDiffMode,
    r: DirtyRect,
) -> bool {
    exists|x: int, y: int|
        0 <= x < width && 0 <= y < height && rect_covers(r, x, y) && #[trigger] changed_at(prev, next, width, x, y, mode)
}

proof fn lemma_row_tiles_sound(
    prev: Seq<u8>,
    next: Seq<u8>,
    width: int,
    height: int,
    tile: int,
    step: int,
    ty: int,
    tx: int,
    mode: ImageDiffMode,
)
    requires
        tile >= 1,
        0 <= ty < height,
        0 <= tx,
        width <= u32::MAX,
        height <= u32::MAX,
    ensures
        forall|i: int|
            0 <= i < dirty_tiles_in_row(prev, next, width, height, tile, step, ty, tx, mode).len() ==> rect_has_change(
                prev,
                next,
                width,
                height,
                mode,
                #[trigger] dirty_tiles_in_row(prev, next, width, height, tile, step, ty, tx, mode)[i],
            ),
    decreases width - tx,
{
    let all = dirty_tiles_in_row(prev, next, width, height, tile, step, ty, tx, mode);
    if tx < width {
        let rw = min_int(width - tx, tile);
        let rh = min_int(height - ty, tile);
        let rest = if tx + tile >= width {
            Seq::empty()
        } else {
            dirty_tiles_in_row(prev, next, width, height, tile, step, ty, tx + tile, mode)
        };
        if tx + tile < width {
            lemma_row_tiles_sound(prev, next, width, height, tile, step, ty, tx + tile, mode);
        }
        if tile_sample_changed(prev, next, width, ty, ty + rh, tx, tx + rw, step, mode) {
            let r = DirtyRect { x: tx as u32, y: ty as u32, width: rw as u32, height: rh as u32 };
            assert(all == seq![r] + rest);
            lemma_tile_sample_witness(prev, next, width, ty, ty + rh, tx, tx + rw, step, mode);
            let (xx, yy) = choose|xx: int, yy: int|
                tx <= xx < tx + rw && ty <= yy < ty + rh && #[trigger] changed_at(prev, next, width, xx, yy, mode);
            assert(r.x as int == tx && r.width as int == rw && r.y as int == ty && r.height as int == rh);
            assert(rect_covers(r, xx, yy));
            assert(rect_has_change(prev, next, width, height, mode, r));
            assert forall|i: int| 0 <= i < all.len() implies rect_has_change(prev, next, width, height, mode, #[trigger] all[i]) by {
                if i > 0 {
                    assert(all[i] == rest[i - 1]);
                }
            }
        } else {
            assert(all == rest);
        }
    }
}

/// Only changed tiles are reported: each tile that `find_dirty_tiles`
/// returns holds a pixel of the frame that changed between the two
/// frames.
pub proof fn lemma_dirty_tiles_hold_changes(
    prev: Seq<u8>,
    next: Seq<u8>,
    width: int,
    height: int,
    tile: int,
    step: int,
    ty: int,
    mode: ImageDiffMode,
)
    requires
        tile >= 1,
        0 <= ty,
        width <= u32::MAX,
        height <= u32::MAX,
    ensures
        forall|i: int|
            0 <= i < dirty_tiles_from(prev, next, width, height, tile, step, ty, mode).len() ==> rect_has_change(
                prev,
                next,
                width,
                height,
                mode,
                #[trigger] dirty_tiles_from(prev, next, width, height, tile, step, ty, mode)[i],
            ),
    decreases height - ty,
{
    let all = dirty_tiles_from(prev, next, width, height, tile, step, ty, mode);
    if ty < height {
        let row = dirty_tiles_in_row(prev, next, width, height, tile, step, ty, 0, mode);
        let rest = if ty + tile >= height {
            Seq::empty()
        } else {
            dirty_tiles_from(prev, next, width, height, tile, step, ty + tile, mode)
        };
        assert(all == row + rest);
        lemma_row_tiles_sound(prev, next, width, height, tile, step, ty, 0, mode);
        if ty + tile < height {
            lemma_dirty_tiles_hold_changes(prev, next, width, height, tile, step, ty + tile, mode);
        }
        assert forall|i: int| 0 <= i < all.len() implies rect_has_change(prev, next, width, height, mode, #[trigger] all[i]) by {
            if i < row.len() {
                assert(all[i] == row[i]);
            } else {
                assert(all[i] == rest[i - row.len()]);
            }
        }
    }
}

} // verus!
