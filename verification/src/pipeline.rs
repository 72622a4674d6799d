//! Preparing an image for display: the pixel bounds that the terminal
//! and the transport allow, whether the image is scaled down, whether its
//! pixels are decoded for differencing, and which upload is prepared
//! ahead of time.
use vstd::prelude::*;
use crate::config::{ImageDiffMode, ImageFilterType, TransportMode};
use crate::kitty::{ResolvedTransport, UploadPayload, UploadPixelFormat, spec_base64, base64_encode};
use crate::text::push_str;
use crate::paths::{path_file_name, spec_file_name};
use crate::cache::{CacheState, ImageCache, index_of_key, touched, lemma_index_of_key};
use crate::frame::{
    RgbaFrame, decode_rgba_frame, spec_decode_rgba, frame_complete, decode_image, spec_decode_dims, resize_image,
    image_rgba, spec_image_rgba, image_png, spec_image_png,
};
use std::collections::hash_map::DefaultHasher;
use std::hash::Hasher;
use vstd::std_specs::hash::DefaultHasherAdditionalSpecFns;
use vstd::bytes::{spec_u32_to_le_bytes, spec_u64_to_le_bytes, u32_to_le_bytes, u64_to_le_bytes};
use vstd::string::StringSliceAdditionalSpecFns;

verus! {

/// Images with more pixels than this are never decoded for differencing.
pub const MAX_RGBA_DIFF_PIXELS: u64 = 33554432;

/// Raw RGBA uploads are sent directly only up to this many bytes.
pub const MAX_DIRECT_RGBA_UPLOAD_BYTES: usize = 524288;

/// Pixels per terminal cell, across.
pub const CELL_PIXEL_WIDTH: u32 = 8;

/// Pixels per terminal cell, down.
pub const CELL_PIXEL_HEIGHT: u32 = 16;

/// `min(a * b, u32::MAX)`.
pub open spec fn sat_mul_u32(a: int, b: int) -> int {
    if a * b > u32::MAX {
        u32::MAX as int
    } else {
        a * b
    }
}

/// The pixel size that fits a terminal of `cols` by `rows` cells (two rows
/// go to the header and status bar): 8 by 16 pixels a cell, at least 1.
pub open spec fn terminal_pixel_limit_spec(cols: u16, rows: u16) -> (u32, u32) {
    let content_rows: int = if rows >= 3 {
        rows - 2
    } else {
        1
    };
    let w = sat_mul_u32(cols as int, CELL_PIXEL_WIDTH as int);
    let h = sat_mul_u32(content_rows, CELL_PIXEL_HEIGHT as int);
    ((if w < 1 { 1 } else { w }) as u32, (if h < 1 { 1 } else { h }) as u32)
}

/// See `terminal_pixel_limit_spec`.
pub fn terminal_pixel_limit(cols: u16, rows: u16) -> (r: (u32, u32))
    ensures
        r == terminal_pixel_limit_spec(cols, rows),
{
    let content_rows: u32 = if rows >= 3 {
        (rows - 2) as u32
    } else {
        1
    };
    let w: u32 = cols as u32 * CELL_PIXEL_WIDTH;
    let h: u32 = content_rows * CELL_PIXEL_HEIGHT;
    (if w < 1 {
        1
    } else {
        w
    }, if h < 1 {
        1
    } else {
        h
    })
}

/// The pixel bounds for a transport: the `file` transport takes the
/// configured bounds (0 meaning none), the others the terminal's.
pub open spec fn transport_limit_spec(max_w: u32, max_h: u32, mode: TransportMode, fw: u32, fh: u32) -> (u32, u32) {
    if mode != TransportMode::File {
        (max_w, max_h)
    } else {
        let w = if fw == 0 {
            u32::MAX
        } else {
            fw
        };
        let h = if fh == 0 {
            u32::MAX
        } else {
            fh
        };
        (w, h)
    }
}

/// See `transport_limit_spec`.
pub fn apply_transport_limit(
    max_w: u32,
    max_h: u32,
    transport_mode: TransportMode,
    file_width_limit: u32,
    file_height_limit: u32,
) -> (r: (u32, u32))
    ensures
        r == transport_limit_spec(max_w, max_h, transport_mode, file_width_limit, file_height_limit),
{
    if transport_mode != TransportMode::File {
        return (max_w, max_h);
    }
    let limited_w = if file_width_limit == 0 {
        u32::MAX
    } else {
        file_width_limit
    };
    let limited_h = if file_height_limit == 0 {
        u32::MAX
    } else {
        file_height_limit
    };
    (limited_w, limited_h)
}

/// The transport used for an image: `direct` stays; any other mode is
/// kept when the image lies within the configured bounds (0 meaning
/// none), and falls back to `direct` otherwise.
pub open spec fn effective_transport_spec(mode: TransportMode, dims: (u32, u32), wl: u32, hl: u32) -> TransportMode {
    if mode == TransportMode::Direct {
        TransportMode::Direct
    } else if (wl == 0 || dims.0 <= wl) && (hl == 0 || dims.1 <= hl) {
        mode
    } else {
        TransportMode::Direct
    }
}

/// See `effective_transport_spec`.
pub fn effective_transport_mode(
    configured_mode: TransportMode,
    source_dims: (u32, u32),
    image_width_limit: u32,
    image_height_limit: u32,
) -> (r: TransportMode)
    ensures
        r == effective_transport_spec(configured_mode, source_dims, image_width_limit, image_height_limit),
{
    if configured_mode == TransportMode::Direct {
        return TransportMode::Direct;
    }
    let within_width = image_width_limit == 0 || source_dims.0 <= image_width_limit;
    let within_height = image_height_limit == 0 || source_dims.1 <= image_height_limit;
    if within_width && within_height {
        configured_mode
    } else {
        TransportMode::Direct
    }
}

/// The number of pixels of an image.
pub fn image_pixel_count(image_dimensions: (u32, u32)) -> (r: u64)
    ensures
        r == image_dimensions.0 * image_dimensions.1,
{
    assert(image_dimensions.0 * image_dimensions.1 <= 0xffff_ffff * 0xffff_ffffint) by (nonlinear_arith)
        requires
            image_dimensions.0 <= 0xffff_ffff,
            image_dimensions.1 <= 0xffff_ffff,
    ;
    image_dimensions.0 as u64 * image_dimensions.1 as u64
}

/// Whether the image's pixels are decoded for differencing: differencing
/// is on and the image has at most `MAX_RGBA_DIFF_PIXELS` pixels.
pub fn should_decode_rgba_frame(image_dimensions: (u32, u32), diff_mode: ImageDiffMode) -> (r: bool)
    ensures
        r == (diff_mode != ImageDiffMode::All && image_dimensions.0 * image_dimensions.1 <= MAX_RGBA_DIFF_PIXELS),
{
    diff_mode != ImageDiffMode::All && image_pixel_count(image_dimensions) <= MAX_RGBA_DIFF_PIXELS
}

/// Whether every frame is uploaded whole (differencing is off).
pub fn is_always_upload_mode(diff_mode: ImageDiffMode) -> (r: bool)
    ensures
        r == (diff_mode == ImageDiffMode::All),
{
    diff_mode == ImageDiffMode::All
}

/// Whether an image of `dims` must be scaled down to fit `max_w` by `max_h`.
pub fn needs_resize(dims: (u32, u32), max_w: u32, max_h: u32) -> (r: bool)
    ensures
        r == (dims.0 > max_w || dims.1 > max_h),
{
    dims.0 > max_w || dims.1 > max_h
}

/// The bytes of a raw RGBA upload of an image of `dims`.
pub fn rgba_upload_bytes(dims: (u32, u32)) -> (r: usize)
    ensures
        r == (if dims.0 * dims.1 * 4 > usize::MAX {
            usize::MAX as int
        } else {
            dims.0 * dims.1 * 4
        }),
{
    let px: u64 = image_pixel_count(dims);
    let bytes: u64 = if px > u64::MAX / 4 {
        u64::MAX
    } else {
        px * 4
    };
    assert(px * 4 > u64::MAX ==> px * 4 > usize::MAX);
    if bytes as u128 > usize::MAX as u128 {
        usize::MAX
    } else {
        bytes as usize
    }
}

/// Whether a scaled-down image goes out as raw RGBA through the direct
/// transport: the transport is `direct` and the raw bytes are at most
/// `MAX_DIRECT_RGBA_UPLOAD_BYTES`.
pub fn use_raw_rgba_direct(transport: TransportMode, resized_dims: (u32, u32)) -> (r: bool)
    ensures
        r == (transport == TransportMode::Direct && resized_dims.0 * resized_dims.1 * 4 <= MAX_DIRECT_RGBA_UPLOAD_BYTES),
{
    transport == TransportMode::Direct && rgba_upload_bytes(resized_dims) <= MAX_DIRECT_RGBA_UPLOAD_BYTES
}

/// What upload is prepared with an image ahead of display.
#[derive(Debug, Clone, Copy, PartialEq, Eq, Structural)]
pub enum PreparedUpload {
    /// None: it is prepared when the image is drawn.
    Later,
    /// Write the data to a file (or a temporary file) now.
    WriteFile,
    /// Send the raw RGBA pixels directly.
    RawDirect,
}

/// What upload to prepare for the medium `requested`: files are written
/// ahead; raw RGBA goes out directly; anything else waits.
pub fn prepared_upload_kind(requested: ResolvedTransport, raw_rgba_direct: bool) -> (r: PreparedUpload)
    ensures
        r == match requested {
            ResolvedTransport::File | ResolvedTransport::TempFile => PreparedUpload::WriteFile,
            ResolvedTransport::Direct => if raw_rgba_direct {
                PreparedUpload::RawDirect
            } else {
                PreparedUpload::Later
            },
            ResolvedTransport::SharedMemory => PreparedUpload::Later,
        },
{
    match requested {
        ResolvedTransport::File | ResolvedTransport::TempFile => PreparedUpload::WriteFile,
        ResolvedTransport::Direct => if raw_rgba_direct {
            PreparedUpload::RawDirect
        } else {
            PreparedUpload::Later
        },
        ResolvedTransport::SharedMemory => PreparedUpload::Later,
    }
}

/// The payload of a raw RGBA upload sent directly: the base64 pixels,
/// their byte size and the image size.
pub fn raw_rgba_payload(encoded_payload: &str, data_size: usize, dims: (u32, u32)) -> (r: UploadPayload)
    ensures
        r.transport == ResolvedTransport::Direct,
        r.payload@ == encoded_payload@,
        r.data_size == data_size,
        r.pixel_format == UploadPixelFormat::Rgba,
        r.pixel_width == dims.0,
        r.pixel_height == dims.1,
{
    let mut payload = String::new();
    push_str(&mut payload, encoded_payload);
    UploadPayload {
        transport: ResolvedTransport::Direct,
        payload,
        data_size,
        pixel_format: UploadPixelFormat::Rgba,
        pixel_width: dims.0,
        pixel_height: dims.1,
    }
}

/// Counters of the image cache's use.
#[derive(Debug, Clone, Copy, PartialEq, Eq, Structural)]
pub struct CacheStats {
    pub cache_requests: u64,
    pub cache_hits: u64,
}

impl CacheStats {
    /// Counts one cache lookup, and a hit if it was one (both saturating).
    pub fn record_cache_result(&mut self, hit: bool)
        ensures
            final(self).cache_requests == (if old(self).cache_requests == u64::MAX {
                u64::MAX
            } else {
                (old(self).cache_requests + 1) as u64
            }),
            final(self).cache_hits == (if hit && old(self).cache_hits < u64::MAX {
                (old(self).cache_hits + 1) as u64
            } else {
                old(self).cache_hits
            }),
    {
        if self.cache_requests < u64::MAX {
            self.cache_requests = self.cache_requests + 1;
        }
        if hit && self.cache_hits < u64::MAX {
            self.cache_hits = self.cache_hits + 1;
        }
    }
}

/// The base64 text of an image's bytes, as a direct upload sends it.
pub fn load_encoded_payload(image_data: &[u8]) -> (r: String)
    requires
        4 * ((image_data@.len() + 2) / 3) <= usize::MAX,
    ensures
        r@ == spec_base64(image_data@),
{
    base64_encode(image_data)
}

/// The name under which an image's metadata hash is taken: its file
/// name, or nothing when the path has none.
pub open spec fn metadata_name(path: Seq<char>) -> Seq<char> {
    match spec_file_name(path) {
        Some(n) => n,
        None => Seq::empty(),
    }
}

/// What the metadata hash feeds the hasher: the file name's bytes and a
/// closing `0xff` (as a `str` is hashed), the width and height (four
/// little-endian bytes each) and, when known, the file's length (eight
/// little-endian bytes).
pub open spec fn metadata_hash_writes(name_bytes: Seq<u8>, dims: (u32, u32), file_len: Option<u64>) -> Seq<Seq<u8>> {
    let head = seq![name_bytes, seq![0xffu8], spec_u32_to_le_bytes(dims.0), spec_u32_to_le_bytes(dims.1)];
    match file_len {
        Some(l) => head.push(spec_u64_to_le_bytes(l)),
        None => head,
    }
}

/// The hash that tells whether an image changed between two draws: the
/// standard `DefaultHasher` over its file name, its size in pixels and
/// its file length.
pub fn image_metadata_hash(image_path: &str, image_dimensions: (u32, u32), file_len: Option<u64>) -> (r: u64)
    ensures
        exists|name: &str|
            name@ == metadata_name(image_path@) && r == DefaultHasher::spec_finish(
                metadata_hash_writes(name.spec_bytes(), image_dimensions, file_len),
            ),
{
    let name = match path_file_name(image_path) {
        Some(n) => n,
        None => String::new(),
    };
    let ns: &str = name.as_str();
    let mut hasher = DefaultHasher::new();
    hasher.write(ns.as_bytes());
    let end: [u8; 1] = [0xffu8];
    hasher.write(end.as_slice());
    let w = u32_to_le_bytes(image_dimensions.0);
    hasher.write(w.as_slice());
    let h = u32_to_le_bytes(image_dimensions.1);
    hasher.write(h.as_slice());
    match file_len {
        Some(l) => {
            let lb = u64_to_le_bytes(l);
            hasher.write(lb.as_slice());
        },
        None => {},
    }
    assert(end@ == seq![0xffu8]);
    assert(hasher@ == metadata_hash_writes(ns.spec_bytes(), image_dimensions, file_len));
    hasher.finish()
}

/// The payload hash of image `index`: the one recorded for it, or else
/// its metadata hash, which is then recorded.
pub fn load_payload_hash(
    cache: &mut CacheState,
    index: usize,
    image_path: &str,
    image_dimensions: (u32, u32),
    file_len: Option<u64>,
) -> (r: u64)
    requires
        old(cache).wf(),
    ensures
        final(cache).wf(),
        final(cache).image_cache == old(cache).image_cache,
        final(cache).next_id() == old(cache).next_id(),
        match old(cache).entry_or_new(index).payload_hash {
            Some(h) => r == h && *final(cache) == *old(cache),
            None => {
                &&& exists|name: &str|
                    name@ == metadata_name(image_path@) && r == DefaultHasher::spec_finish(
                        metadata_hash_writes(name.spec_bytes(), image_dimensions, file_len),
                    )
                &&& final(cache).entry_or_new(index).payload_hash == Some(r)
                &&& forall|j: usize| j != index ==> #[trigger] final(cache).lookup(j) == old(cache).lookup(j)
            },
        },
{
    match cache.payload_hash_of(index) {
        Some(h) => h,
        None => {
            let h = image_metadata_hash(image_path, image_dimensions, file_len);
            cache.record_payload_hash(index, h);
            h
        },
    }
}

/// Two frames hold the same size and pixels.
pub open spec fn same_frame(a: RgbaFrame, b: RgbaFrame) -> bool {
    a.width == b.width && a.height == b.height && a.pixels@ == b.pixels@
}

/// The decoded frame of image `index`: the one cached with it, when the
/// cache is on and holds one (the entry becomes the most recent), or else
/// the frame decoded from `image_data`, which an enabled cache then keeps
/// with the image's bytes if it holds them.
pub fn load_rgba_frame(cache: &mut ImageCache, index: usize, image_data: &[u8]) -> (r: Option<RgbaFrame>)
    requires
        old(cache).wf(),
    ensures
        final(cache).wf(),
        final(cache).lru_bound() == old(cache).lru_bound(),
        final(cache).byte_bound() == old(cache).byte_bound(),
        ({
            let s = old(cache).entries();
            let i = index_of_key(s, index);
            if old(cache).is_enabled() && i >= 0 && s[i].rgba is Some {
                &&& r matches Some(f) && same_frame(f, s[i].rgba->0)
                &&& final(cache).entries() == touched(s, i)
            } else {
                match spec_decode_rgba(image_data@) {
                    None => r is None && final(cache).entries() == s,
                    Some((w, h, px)) => {
                        &&& r matches Some(f) && f.width == w && f.height == h && f.pixels@ == px && frame_complete(&f)
                        &&& if old(cache).is_enabled() && i >= 0 {
                            &&& final(cache).entries().len() == s.len()
                            &&& final(cache).entries().drop_last() == s.remove(i)
                            &&& final(cache).entries().last().key == index
                            &&& final(cache).entries().last().bytes == s[i].bytes
                            &&& final(cache).entries().last().rgba matches Some(g) && same_frame(g, r->0)
                        } else {
                            final(cache).entries() == s
                        }
                    },
                }
            }
        }),
{
    proof {
        lemma_index_of_key(old(cache).entries(), index);
        let s0 = old(cache).entries();
        let i0 = index_of_key(s0, index);
        if i0 >= 0 {
            assert(old(cache).has_key(index));
        }
    }
    if cache.enabled() {
        match cache.get_rgba(index) {
            Some(f) => {
                return Some(f);
            },
            None => {},
        }
    }
    let decoded = match decode_rgba_frame(image_data) {
        Some(f) => f,
        None => {
            return None;
        },
    };
    if cache.enabled() {
        let copy = decoded.clone();
        let ghost before = cache.entries();
        cache.insert_rgba(index, copy);
        proof {
            let i = index_of_key(before, index);
            if i >= 0 {
                assert(cache.entries().drop_last() == before.remove(i));
            }
        }
    }
    Some(decoded)
}


/// What a preview request asks of the image it prepares.
#[derive(Debug, Clone, Copy)]
pub struct ImageSettings {
    pub diff_mode: ImageDiffMode,
    pub transport_mode: TransportMode,
    pub filter: ImageFilterType,
    pub width_limit: u32,
    pub height_limit: u32,
    pub allow_rgba_decode: bool,
    pub term_cols: u16,
    pub term_rows: u16,
}

/// Why an image could not be prepared.
#[derive(Debug, Clone, Copy, PartialEq, Eq, Structural)]
pub enum PrepareError {
    /// The bytes are no image that the decoder reads.
    DecodeFailed,
    /// Scaling would need buffers beyond what a `Vec` can hold.
    TooLarge,
    /// The PNG encoder failed.
    EncodeFailed,
}

/// An image made ready for display: the bytes that are sent (the file
/// itself, a PNG of the scaled image, or raw RGBA pixels), its base64
/// text, the sizes before and after scaling, the transport, the hash that
/// tells a redraw whether it changed, and the decoded pixels kept for
/// differencing.
#[derive(Debug)]
pub struct PreparedImagePayload {
    pub image_data: Vec<u8>,
    pub source_dimensions: (u32, u32),
    pub image_dimensions: (u32, u32),
    pub transport_mode: TransportMode,
    pub raw_rgba_direct: bool,
    pub payload_hash: u64,
    pub encoded_payload: String,
    pub rgba_frame: Option<RgbaFrame>,
}

/// The transport for an image of `source` size, and the pixel bounds that
/// it must fit: the terminal's, or the `file` transport's own.
pub open spec fn prepare_limits(s: ImageSettings, source: (u32, u32)) -> (TransportMode, (u32, u32)) {
    let t = effective_transport_spec(s.transport_mode, source, s.width_limit, s.height_limit);
    let base = terminal_pixel_limit_spec(s.term_cols, s.term_rows);
    (t, transport_limit_spec(base.0, base.1, t, s.width_limit, s.height_limit))
}

/// Scaling an image `width` pixels wide to `target` allocates within
/// `isize::MAX` bytes.
pub open spec fn resize_fits(width: u32, target: (u32, u32)) -> bool {
    width as int * target.1 as int * 16 <= isize::MAX && target.0 as int * target.1 as int * 16 <= isize::MAX
}

/// The pixels kept for differencing: those of the shown image, when
/// decoding is allowed and `should_decode_rgba_frame` holds of its size.
pub open spec fn kept_frame(s: ImageSettings, dims: (u32, u32), pixels: Seq<u8>) -> Option<(u32, u32, Seq<u8>)> {
    if s.allow_rgba_decode && s.diff_mode != ImageDiffMode::All && dims.0 * dims.1 <= MAX_RGBA_DIFF_PIXELS {
        Some((dims.0, dims.1, pixels))
    } else {
        None
    }
}

/// A frame as its size and pixels.
pub open spec fn frame_view(f: Option<RgbaFrame>) -> Option<(u32, u32, Seq<u8>)> {
    match f {
        Some(g) => Some((g.width, g.height, g.pixels@)),
        None => None,
    }
}

/// What preparing `bytes` (an image of `source` size, to be scaled to
/// `target` where it exceeds its bounds) yields: the bytes sent, the
/// shown size, whether they are raw RGBA pixels, and the pixels kept for
/// differencing. An image within its bounds is sent as it is. A larger
/// one is decoded; where the decoded image still exceeds the bounds it is
/// scaled to `target` in its own colour type; it is then sent as raw
/// RGBA pixels where the transport is `direct` and they take at most
/// `MAX_DIRECT_RGBA_UPLOAD_BYTES`, and as a PNG file in its own colour
/// type otherwise.
pub open spec fn prepare_outcome(
    bytes: Seq<u8>,
    source: (u32, u32),
    target: (u32, u32),
    s: ImageSettings,
) -> Result<(Seq<u8>, (u32, u32), bool, Option<(u32, u32, Seq<u8>)>), PrepareError> {
    let (t, max) = prepare_limits(s, source);
    if !(source.0 > max.0 || source.1 > max.1) {
        let frame = if s.allow_rgba_decode && s.diff_mode != ImageDiffMode::All && source.0 * source.1
            <= MAX_RGBA_DIFF_PIXELS {
            spec_decode_rgba(bytes)
        } else {
            None
        };
        Ok((bytes, source, false, frame))
    } else {
        match spec_decode_dims(bytes) {
            None => Err(PrepareError::DecodeFailed),
            Some((w, h)) => {
                let shrink = w > max.0 || h > max.1;
                if shrink && !resize_fits(w, target) {
                    Err(PrepareError::TooLarge)
                } else {
                    let dims = if shrink { target } else { (w, h) };
                    let scale = if shrink {
                        Some((target.0, target.1, s.filter))
                    } else {
                        None
                    };
                    let pixels = spec_image_rgba(bytes, scale);
                    let frame = kept_frame(s, dims, pixels);
                    if t == TransportMode::Direct && dims.0 * dims.1 * 4 <= MAX_DIRECT_RGBA_UPLOAD_BYTES {
                        Ok((pixels, dims, true, frame))
                    } else {
                        match spec_image_png(bytes, scale) {
                            None => Err(PrepareError::EncodeFailed),
                            Some(png) => Ok((png, dims, false, frame)),
                        }
                    }
                }
            },
        }
    }
}

proof fn lemma_base64_len_fits(n: int)
    requires
        0 <= n <= isize::MAX,
    ensures
        4 * ((n + 2) / 3) <= usize::MAX,
{
    assert(isize::MAX as int * 2 + 1 == usize::MAX as int);
    assert(4 * ((n + 2) / 3) <= 2 * n + 2) by (nonlinear_arith)
        requires
            n >= 0,
    ;
}

/// Prepares an image for display from its file's `bytes`: `source_dims`
/// is the size its header gives, `target_dims` the size it is scaled to
/// where it exceeds its bounds (see `prepare_outcome`). The payload also
/// holds the base64 text of the bytes sent and the metadata hash of
/// `path`, the shown size and `file_len`.
pub fn prepare_image_payload(
    bytes: &Vec<u8>,
    source_dims: (u32, u32),
    target_dims: (u32, u32),
    settings: &ImageSettings,
    path: &str,
    file_len: Option<u64>,
) -> (r: Result<PreparedImagePayload, PrepareError>)
    requires
        bytes@.len() <= isize::MAX,
        target_dims.0 >= 1,
        target_dims.1 >= 1,
    ensures
        match prepare_outcome(bytes@, source_dims, target_dims, *settings) {
            Ok(c) => r matches Ok(p) && {
                &&& c == (p.image_data@, p.image_dimensions, p.raw_rgba_direct, frame_view(p.rgba_frame))
                &&& p.source_dimensions == source_dims
                &&& p.transport_mode == prepare_limits(*settings, source_dims).0
                &&& p.encoded_payload@ == spec_base64(p.image_data@)
                &&& exists|name: &str|
                    name@ == metadata_name(path@) && p.payload_hash == DefaultHasher::spec_finish(
                        metadata_hash_writes(name.spec_bytes(), p.image_dimensions, file_len),
                    )
            },
            Err(e) => r matches Err(f) && f == e,
        },
{
    let transport_mode = effective_transport_mode(
        settings.transport_mode,
        source_dims,
        settings.width_limit,
        settings.height_limit,
    );
    let (base_w, base_h) = terminal_pixel_limit(settings.term_cols, settings.term_rows);
    let (max_w, max_h) = apply_transport_limit(
        base_w,
        base_h,
        transport_mode,
        settings.width_limit,
        settings.height_limit,
    );
    let image_data: Vec<u8>;
    let image_dimensions: (u32, u32);
    let raw_rgba_direct: bool;
    let rgba_frame: Option<RgbaFrame>;
    if !needs_resize(source_dims, max_w, max_h) {
        rgba_frame = if settings.allow_rgba_decode && should_decode_rgba_frame(source_dims, settings.diff_mode) {
            decode_rgba_frame(bytes.as_slice())
        } else {
            None
        };
        image_data = bytes.clone();
        image_dimensions = source_dims;
        raw_rgba_direct = false;
    } else {
        let decoded = match decode_image(bytes.as_slice()) {
            Some(d) => d,
            None => {
                return Err(PrepareError::DecodeFailed);
            },
        };
        let shown = if needs_resize((decoded.width, decoded.height), max_w, max_h) {
            let dw: u128 = decoded.width as u128;
            let tw: u128 = target_dims.0 as u128;
            let th: u128 = target_dims.1 as u128;
            assert(dw * th <= 0xffff_ffff * 0xffff_ffffint && tw * th <= 0xffff_ffff * 0xffff_ffffint)
                by (nonlinear_arith)
                requires
                    dw <= 0xffff_ffff,
                    tw <= 0xffff_ffff,
                    th <= 0xffff_ffff,
            ;
            let wide: u128 = dw * th * 16;
            let out: u128 = tw * th * 16;
            if wide > isize::MAX as u128 || out > isize::MAX as u128 {
                return Err(PrepareError::TooLarge);
            }
            resize_image(&decoded, target_dims.0, target_dims.1, settings.filter)
        } else {
            decoded
        };
        let dims = (shown.width, shown.height);
        let keep = settings.allow_rgba_decode && should_decode_rgba_frame(dims, settings.diff_mode);
        if use_raw_rgba_direct(transport_mode, dims) {
            let raw = image_rgba(&shown);
            rgba_frame = if keep {
                Some(raw.clone())
            } else {
                None
            };
            image_data = raw.pixels;
            raw_rgba_direct = true;
        } else {
            let png = match image_png(&shown) {
                Some(b) => b,
                None => {
                    return Err(PrepareError::EncodeFailed);
                },
            };
            image_data = png;
            raw_rgba_direct = false;
            rgba_frame = if keep {
                Some(image_rgba(&shown))
            } else {
                None
            };
        }
        image_dimensions = dims;
    }
    proof {
        lemma_base64_len_fits(image_data@.len() as int);
    }
    let encoded_payload = load_encoded_payload(image_data.as_slice());
    let payload_hash = image_metadata_hash(path, image_dimensions, file_len);
    Ok(
        PreparedImagePayload {
            image_data,
            source_dimensions: source_dims,
            image_dimensions,
            transport_mode,
            raw_rgba_direct,
            payload_hash,
            encoded_payload,
            rgba_frame,
        },
    )
}

} // verus!
