//! Drawing the image: whether a frame needs a new upload, can be patched
//! tile by tile from the last uploaded frame, or only needs placing again,
//! and the Kitty commands that do it.
use vstd::prelude::*;
use crate::config::ImageDiffMode;
use crate::frame::{
    RgbaFrame, DirtyRect, frame_complete, find_dirty_tiles, dirty_tiles_from, extract_rect_rgba, rect_rows,
    lemma_tiles_in_bounds,
};
use crate::kitty::{
    KITTY_IMAGE_ID, UploadPayload, SharedMemoryState, send_delete, send_patch_rgba, send_place, send_upload,
    delete_command, patch_command, place_command, upload_command, spec_base64, base64_encode,
};
use std::collections::hash_map::DefaultHasher;
use std::hash::Hasher;
use vstd::std_specs::hash::DefaultHasherAdditionalSpecFns;
use vstd::bytes::{spec_u64_to_le_bytes, u64_to_le_bytes};

verus! {

/// What is known of the image shown in the terminal.
#[derive(Debug)]
pub struct ImageRenderState {
    /// An image was uploaded.
    pub has_uploaded: bool,
    /// The payload hash of the last upload.
    pub last_payload_hash: Option<u64>,
    /// Where the image was last placed: column, row, width and height in cells.
    pub last_placement: Option<(u16, u16, u32, u32)>,
    /// The last uploaded frame, kept for patching.
    pub last_rgba_frame: Option<RgbaFrame>,
    /// The files and shared memory the uploads went through.
    pub shared_memory: SharedMemoryState,
}

/// What a frame's drawing takes (the placement is computed beforehand).
#[derive(Debug)]
pub struct ImageRenderInput {
    pub placement: (u16, u16, u32, u32),
    /// Upload even when the payload did not change.
    pub always_upload: bool,
    pub diff_mode: ImageDiffMode,
    pub payload_hash: u64,
    /// Delete the shown image and start over.
    pub refresh_image: bool,
    pub tile_grid: u32,
    pub skip_step: u32,
    /// The frame's decoded pixels, when known.
    pub rgba_frame: Option<RgbaFrame>,
}

/// What drawing a frame came to.
#[derive(Debug)]
pub struct RenderStep {
    /// The commands to write, in order.
    pub commands: Vec<String>,
    /// The frame still has to be uploaded (see `finish_upload`).
    pub needs_upload: bool,
    /// How many tiles changed, when tiles were compared.
    pub dirty_tiles: Option<usize>,
}

/// What drawing an image measured.
#[derive(Debug, Clone, Copy)]
pub struct ImageRenderMetrics {
    pub dirty_tiles: Option<usize>,
    pub placement: (u16, u16, u32, u32),
}

/// Whether the frame must go to the terminal: always in that mode, when
/// nothing was uploaded, or when the payload changed.
pub open spec fn upload_due(s: ImageRenderState, input: ImageRenderInput) -> bool {
    input.always_upload || !s.has_uploaded || s.last_payload_hash != Some(input.payload_hash)
}

/// The changed tiles between the last uploaded frame and this one, when a
/// patch is possible at all: differencing is on, something was uploaded
/// and is kept, no refresh is asked for, an upload is due, both frames are
/// known and of one size.
pub open spec fn planned_tiles(s: ImageRenderState, input: ImageRenderInput) -> Option<Seq<DirtyRect>> {
    if input.diff_mode != ImageDiffMode::All && s.has_uploaded && !input.refresh_image && upload_due(s, input) {
        match (s.last_rgba_frame, input.rgba_frame) {
            (Some(prev), Some(next)) => if prev.width == next.width && prev.height == next.height {
                Some(
                    dirty_tiles_from(
                        prev.pixels@,
                        next.pixels@,
                        next.width as int,
                        next.height as int,
                        if input.tile_grid == 0 { 1 } else { input.tile_grid as int },
                        if input.skip_step == 0 { 1 } else { input.skip_step as int },
                        0,
                        input.diff_mode,
                    ),
                )
            } else {
                None
            },
            _ => None,
        }
    } else {
        None
    }
}

/// The frames are complete, and small enough that base64 lengths fit.
pub open spec fn frames_ok(s: ImageRenderState, input: ImageRenderInput) -> bool {
    &&& s.last_rgba_frame matches Some(f) ==> frame_complete(&f)
    &&& input.rgba_frame matches Some(f) ==> frame_complete(&f) && f.pixels@.len() <= usize::MAX / 2
}

/// The area that a list of tiles covers, summed with saturation.
pub open spec fn tiles_area(rects: Seq<DirtyRect>) -> int
    decreases rects.len(),
{
    if rects.len() == 0 {
        0
    } else {
        let rest = tiles_area(rects.drop_last());
        let a = rects.last().width * rects.last().height;
        let a_sat = if a > u32::MAX {
            u32::MAX as int
        } else {
            a
        };
        if rest + a_sat > u32::MAX {
            u32::MAX as int
        } else {
            rest + a_sat
        }
    }
}

/// The area that the tiles cover, in pixels, with saturation.
pub fn dirty_area(rects: &Vec<DirtyRect>) -> (r: u32)
    ensures
        r == tiles_area(rects@),
{
    let mut acc: u32 = 0;
    let mut i: usize = 0;
    while i < rects.len()
        invariant
            i <= rects@.len(),
            acc == tiles_area(rects@.take(i as int)),
        decreases rects@.len() - i,
    {
        let r = rects[i];
        assert((r.width as int) * (r.height as int) <= 0xffff_ffffint * 0xffff_ffffint) by (nonlinear_arith)
            requires
                0 <= r.width <= 0xffff_ffff,
                0 <= r.height <= 0xffff_ffff,
        ;
        let a: u64 = r.width as u64 * r.height as u64;
        let a_sat: u32 = if a > u32::MAX as u64 {
            u32::MAX
        } else {
            a as u32
        };
        acc = if a_sat > u32::MAX - acc {
            u32::MAX
        } else {
            acc + a_sat
        };
        assert(rects@.take(i + 1).drop_last() == rects@.take(i as int));
        i = i + 1;
    }
    assert(rects@.take(rects@.len() as int) == rects@);
    acc
}

/// The one-byte writes of the bytes of `data` at the places 0, 2 and 4 of
/// every group of six, in order.
pub open spec fn half_sample_writes(data: Seq<u8>) -> Seq<Seq<u8>>
    decreases data.len(),
{
    if data.len() == 0 {
        Seq::empty()
    } else {
        let i = data.len() - 1;
        let rest = half_sample_writes(data.drop_last());
        if i % 6 == 0 || i % 6 == 2 || i % 6 == 4 {
            rest.push(seq![data[i]])
        } else {
            rest
        }
    }
}

/// What the payload hash feeds the hasher for each mode: `All` a single
/// zero byte (its hash never decides anything); `Full` the length (eight
/// little-endian bytes) and all the data; `Half` the length and then the
/// sampled bytes one by one.
pub open spec fn payload_hash_writes(data: Seq<u8>, diff_mode: ImageDiffMode) -> Seq<Seq<u8>> {
    match diff_mode {
        ImageDiffMode::All => seq![seq![0u8]],
        ImageDiffMode::Full => seq![spec_u64_to_le_bytes(data.len() as u64), data],
        ImageDiffMode::Half => seq![spec_u64_to_le_bytes(data.len() as u64)] + half_sample_writes(data),
    }
}

/// Hashes an image payload with the standard `DefaultHasher`, over the
/// bytes that the difference mode looks at.
pub fn hash_image_payload(image_data: &[u8], diff_mode: ImageDiffMode) -> (r: u64)
    ensures
        r == DefaultHasher::spec_finish(payload_hash_writes(image_data@, diff_mode)),
{
    let mut hasher = DefaultHasher::new();
    match diff_mode {
        ImageDiffMode::All => {
            let zero: [u8; 1] = [0u8];
            hasher.write(zero.as_slice());
            assert(zero@ == seq![0u8]);
            assert(hasher@ == payload_hash_writes(image_data@, diff_mode));
        },
        ImageDiffMode::Full => {
            let len_bytes = u64_to_le_bytes(image_data.len() as u64);
            hasher.write(len_bytes.as_slice());
            hasher.write(image_data);
            assert(hasher@ == payload_hash_writes(image_data@, diff_mode));
        },
        ImageDiffMode::Half => {
            let len_bytes = u64_to_le_bytes(image_data.len() as u64);
            hasher.write(len_bytes.as_slice());
            let ghost head = hasher@;
            let n = image_data.len();
            let mut i: usize = 0;
            while i < n
                invariant
                    i <= n,
                    n == image_data@.len(),
                    head == seq![spec_u64_to_le_bytes(n as u64)],
                    hasher@ == head + half_sample_writes(image_data@.take(i as int)),
                decreases n - i,
            {
                let m = i % 6;
                let ghost before = hasher@;
                assert(image_data@.take(i + 1).drop_last() == image_data@.take(i as int));
                if m == 0 || m == 2 || m == 4 {
                    let one: [u8; 1] = [image_data[i]];
                    hasher.write(one.as_slice());
                    assert(one@ == seq![image_data@[i as int]]);
                    assert(hasher@ == before.push(seq![image_data@[i as int]]));
                }
                i = i + 1;
            }
            assert(image_data@.take(n as int) == image_data@);
        },
    }
    hasher.finish()
}

/// The bytes of a rectangle hold four per pixel.
proof fn lemma_rect_rows_len(pixels: Seq<u8>, fw: int, rect: DirtyRect, y: int)
    requires
        0 <= fw,
        rect.y <= y <= rect.y + rect.height,
        rect.x + rect.width <= fw,
        (rect.y + rect.height) * fw * 4 <= pixels.len(),
    ensures
        rect_rows(pixels, fw, rect, y).len() == (rect.y + rect.height - y) * rect.width * 4,
    decreases rect.y + rect.height - y,
{
    if y < rect.y + rect.height {
        let start = y * fw * 4 + rect.x * 4;
        assert(start + rect.width * 4 <= (rect.y + rect.height) * fw * 4) by (nonlinear_arith)
            requires
                start == y * fw * 4 + rect.x * 4,
                y + 1 <= rect.y + rect.height,
                rect.x + rect.width <= fw,
                0 <= y,
                0 <= rect.x,
        ;
        assert(0 <= start) by (nonlinear_arith)
            requires
                start == y * fw * 4 + rect.x * 4,
                0 <= y,
                0 <= fw,
                0 <= rect.x,
        ;
        lemma_rect_rows_len(pixels, fw, rect, y + 1);
        let part = pixels.subrange(start, start + rect.width * 4);
        assert(rect_rows(pixels, fw, rect, y) == part + rect_rows(pixels, fw, rect, y + 1));
        assert(part.len() == rect.width * 4);
        assert((rect.y + rect.height - y) * rect.width * 4 == rect.width * 4 + (rect.y + rect.height - (y + 1))
            * rect.width * 4) by (nonlinear_arith);
    } else {
        assert(rect.y + rect.height - y == 0);
        assert((rect.y + rect.height - y) * rect.width * 4 == 0) by (nonlinear_arith)
            requires
                rect.y + rect.height - y == 0,
        ;
    }
}

impl ImageRenderState {
    /// A state with nothing uploaded and no upload file or shared memory
    /// object chosen yet.
    pub fn new() -> (r: Self)
        ensures
            !r.has_uploaded,
            r.last_payload_hash is None,
            r.last_placement is None,
            r.last_rgba_frame is None,
            r.shared_memory.file_path is None,
            r.shared_memory.temp_file_path is None,
            r.shared_memory.segment_name is None,
    {
        ImageRenderState {
            has_uploaded: false,
            last_payload_hash: None,
            last_placement: None,
            last_rgba_frame: None,
            shared_memory: SharedMemoryState::new(),
        }
    }

    /// Forgets the uploaded image.
    pub fn reset_upload_state(&mut self)
        ensures
            !final(self).has_uploaded,
            final(self).last_payload_hash is None,
            final(self).last_placement is None,
            final(self).last_rgba_frame is None,
            final(self).shared_memory == old(self).shared_memory,
    {
        self.has_uploaded = false;
        self.last_payload_hash = None;
        self.last_placement = None;
        self.last_rgba_frame = None;
    }

    /// Whether an image is shown that later frames can be compared with.
    pub fn has_active_image(&self) -> (r: bool)
        ensures
            r == self.has_uploaded,
    {
        self.has_uploaded
    }

    /// The changed tiles of this frame, when it can be patched; see
    /// `planned_tiles`.
    pub fn plan_dirty_tiles(&self, input: &ImageRenderInput) -> (r: Option<Vec<DirtyRect>>)
        requires
            frames_ok(*self, *input),
        ensures
            match r {
                Some(v) => planned_tiles(*self, *input) == Some(v@),
                None => planned_tiles(*self, *input) is None,
            },
    {
        let due = input.always_upload || !self.has_uploaded || self.last_payload_hash != Some(input.payload_hash);
        if input.diff_mode == ImageDiffMode::All || !self.has_uploaded || input.refresh_image || !due {
            return None;
        }
        match (&self.last_rgba_frame, &input.rgba_frame) {
            (Some(prev), Some(next)) => find_dirty_tiles(prev, next, input.diff_mode, input.tile_grid, input.skip_step),
            _ => None,
        }
    }
}


/// The patch commands that paint `rects` of `next` over the shown image.
pub open spec fn patch_commands(next: RgbaFrame, rects: Seq<DirtyRect>) -> Seq<Seq<char>> {
    rects.map_values(
        |r: DirtyRect|
            patch_command(r.x, r.y, r.width, r.height, spec_base64(rect_rows(next.pixels@, next.width as int, r, r.y as int))),
    )
}

/// `s` after a refresh request: everything about the shown image dropped.
pub open spec fn after_refresh(s: ImageRenderState, refresh: bool) -> ImageRenderState {
    if refresh {
        ImageRenderState {
            has_uploaded: false,
            last_payload_hash: None,
            last_placement: None,
            last_rgba_frame: None,
            ..s
        }
    } else {
        s
    }
}

/// `s` with the frame recorded as shown at the input's placement.
pub open spec fn recorded(s: ImageRenderState, input: ImageRenderInput, frame: Option<RgbaFrame>) -> ImageRenderState {
    ImageRenderState {
        has_uploaded: true,
        last_payload_hash: Some(input.payload_hash),
        last_placement: Some(input.placement),
        last_rgba_frame: frame,
        ..s
    }
}

/// What drawing a frame does, given the changed tiles (`dirty`, with
/// whether their share of the frame is within the configured ratio). A
/// refresh deletes the shown image first. When an upload is due, the
/// frame is patched where tiles were compared and either none changed or
/// few enough did; otherwise it must be uploaded (`needs_upload`). When no
/// upload is due, the image is placed again if its placement changed.
pub open spec fn render_effect(
    s0: ImageRenderState,
    s1: ImageRenderState,
    input: ImageRenderInput,
    dirty: Option<(Seq<DirtyRect>, bool)>,
    cmds: Seq<Seq<char>>,
    needs_upload: bool,
    dirty_tiles: Option<usize>,
) -> bool {
    let s = after_refresh(s0, input.refresh_image);
    let prefix: Seq<Seq<char>> = if input.refresh_image {
        seq![delete_command()]
    } else {
        Seq::empty()
    };
    if upload_due(s, input) {
        match dirty {
            Some((rects, ok)) => {
                &&& dirty_tiles == Some(rects.len() as usize)
                &&& if rects.len() == 0 {
                    cmds == prefix && !needs_upload && s1 == recorded(s, input, input.rgba_frame)
                } else if ok {
                    &&& input.rgba_frame matches Some(next) && cmds == prefix + patch_commands(next, rects)
                    &&& !needs_upload
                    &&& s1 == recorded(s, input, input.rgba_frame)
                } else {
                    cmds == prefix && needs_upload && s1 == (ImageRenderState { last_rgba_frame: input.rgba_frame, ..s })
                }
            },
            None => {
                &&& dirty_tiles is None
                &&& cmds == prefix
                &&& needs_upload
                &&& s1 == (ImageRenderState {
                    last_rgba_frame: if input.diff_mode == ImageDiffMode::All {
                        None
                    } else {
                        input.rgba_frame
                    },
                    ..s
                })
            },
        }
    } else {
        &&& dirty_tiles is None
        &&& !needs_upload
        &&& if s.last_placement != Some(input.placement) {
            cmds == prefix.push(place_command(input.placement.2, input.placement.3)) && s1 == (ImageRenderState {
                last_placement: Some(input.placement),
                ..s
            })
        } else {
            cmds == prefix && s1 == s
        }
    }
}

/// The views of a list of commands.
pub open spec fn command_views(cmds: Seq<String>) -> Seq<Seq<char>> {
    cmds.map_values(|c: String| c@)
}

impl ImageRenderState {
    /// Draws a frame; see `render_effect`. `dirty` is what
    /// `plan_dirty_tiles` found, with whether the changed area is within
    /// the configured share of the frame.
    pub fn render_image(&mut self, input: ImageRenderInput, dirty: Option<(Vec<DirtyRect>, bool)>) -> (r: RenderStep)
        requires
            frames_ok(*old(self), input),
            match dirty {
                None => planned_tiles(*old(self), input) is None,
                Some((v, _)) => planned_tiles(*old(self), input) == Some(v@),
            },
        ensures
            render_effect(
                *old(self),
                *final(self),
                input,
                match dirty {
                    Some((v, ok)) => Some((v@, ok)),
                    None => None,
                },
                command_views(r.commands@),
                r.needs_upload,
                r.dirty_tiles,
            ),
    {
        let mut cmds: Vec<String> = Vec::new();
        if input.refresh_image {
            cmds.push(send_delete(KITTY_IMAGE_ID));
            self.reset_upload_state();
        }
        assert(command_views(cmds@) == (if input.refresh_image {
            seq![delete_command()]
        } else {
            Seq::<Seq<char>>::empty()
        }));
        let due = input.always_upload || !self.has_uploaded || self.last_payload_hash != Some(input.payload_hash);
        if !due {
            if self.last_placement != Some(input.placement) {
                let ghost before = cmds@;
                cmds.push(send_place(input.placement, KITTY_IMAGE_ID));
                assert(command_views(cmds@) == command_views(before).push(cmds@.last()@));
                self.last_placement = Some(input.placement);
            }
            return RenderStep { commands: cmds, needs_upload: false, dirty_tiles: None };
        }
        match dirty {
            Some((rects, ok)) => {
                let n = rects.len();
                if n == 0 {
                    self.has_uploaded = true;
                    self.last_payload_hash = Some(input.payload_hash);
                    self.last_placement = Some(input.placement);
                    self.last_rgba_frame = input.rgba_frame;
                    return RenderStep { commands: cmds, needs_upload: false, dirty_tiles: Some(n) };
                }
                if ok {
                    let next = match input.rgba_frame {
                        Some(f) => f,
                        None => {
                            return RenderStep { commands: cmds, needs_upload: false, dirty_tiles: Some(n) };
                        },
                    };
                    let ghost prefix = command_views(cmds@);
                    proof {
                        lemma_tiles_in_bounds(
                            old(self).last_rgba_frame->0.pixels@,
                            next.pixels@,
                            next.width as int,
                            next.height as int,
                            if input.tile_grid == 0 { 1 } else { input.tile_grid as int },
                            if input.skip_step == 0 { 1 } else { input.skip_step as int },
                            0,
                            input.diff_mode,
                        );
                    }
                    let mut k: usize = 0;
                    while k < n
                        invariant
                            k <= n,
                            n == rects@.len(),
                            frame_complete(&next),
                            next.pixels@.len() <= usize::MAX / 2,
                            forall|j: int|
                                0 <= j < rects@.len() ==> #[trigger] rects@[j].x + rects@[j].width <= next.width
                                    && rects@[j].y + rects@[j].height <= next.height,
                            command_views(cmds@) == prefix + patch_commands(next, rects@.take(k as int)),
                        decreases n - k,
                    {
                        let rect = rects[k];
                        let bytes = extract_rect_rgba(&next, rect);
                        proof {
                            assert((rect.y + rect.height) * next.width * 4 <= next.width * next.height * 4) by (nonlinear_arith)
                                requires
                                    rect.y + rect.height <= next.height,
                                    0 <= next.width,
                            ;
                            lemma_rect_rows_len(next.pixels@, next.width as int, rect, rect.y as int);
                            assert(rect.height * rect.width * 4 <= next.width * next.height * 4) by (nonlinear_arith)
                                requires
                                    rect.y + rect.height <= next.height,
                                    rect.x + rect.width <= next.width,
                                    0 <= rect.x,
                                    0 <= rect.y,
                            ;
                        }
                        let payload = base64_encode(bytes.as_slice());
                        let ghost before = cmds@;
                        cmds.push(send_patch_rgba(KITTY_IMAGE_ID, rect.x, rect.y, rect.width, rect.height, payload.as_str()));
                        proof {
                            assert(rects@.take(k + 1) == rects@.take(k as int).push(rect));
                            assert(command_views(cmds@) == command_views(before).push(cmds@.last()@));
                            assert(patch_commands(next, rects@.take(k + 1)) == patch_commands(next, rects@.take(k as int)).push(
                                patch_command(rect.x, rect.y, rect.width, rect.height, spec_base64(rect_rows(next.pixels@, next.width as int, rect, rect.y as int))),
                            ));
                        }
                        k = k + 1;
                    }
                    assert(rects@.take(n as int) == rects@);
                    self.has_uploaded = true;
                    self.last_payload_hash = Some(input.payload_hash);
                    self.last_placement = Some(input.placement);
                    self.last_rgba_frame = Some(next);
                    return RenderStep { commands: cmds, needs_upload: false, dirty_tiles: Some(n) };
                }
                self.last_rgba_frame = input.rgba_frame;
                RenderStep { commands: cmds, needs_upload: true, dirty_tiles: Some(n) }
            },
            None => {
                self.last_rgba_frame = if input.diff_mode == ImageDiffMode::All {
                    None
                } else {
                    input.rgba_frame
                };
                RenderStep { commands: cmds, needs_upload: true, dirty_tiles: None }
            },
        }
    }

    /// Uploads the frame whose drawing asked for it, and records it as
    /// shown at `placement` with `payload_hash`.
    pub fn finish_upload(&mut self, placement: (u16, u16, u32, u32), upload_payload: &UploadPayload, payload_hash: u64) -> (r: String)
        ensures
            r@ == upload_command(placement.2, placement.3, *upload_payload),
            *final(self) == (ImageRenderState {
                has_uploaded: true,
                last_payload_hash: Some(payload_hash),
                last_placement: Some(placement),
                ..*old(self)
            }),
    {
        let cmd = send_upload(placement, KITTY_IMAGE_ID, upload_payload);
        self.has_uploaded = true;
        self.last_payload_hash = Some(payload_hash);
        self.last_placement = Some(placement);
        cmd
    }
}

/// Once a frame was uploaded (the state that `finish_upload` leaves),
/// drawing the same frame again at the same place, with no refresh and
/// no forced upload, sends nothing, asks for no upload and changes
/// nothing.
pub proof fn lemma_uploaded_frame_is_not_sent_again(
    s: ImageRenderState,
    input: ImageRenderInput,
    after: ImageRenderState,
    dirty: Option<(Seq<DirtyRect>, bool)>,
    cmds: Seq<Seq<char>>,
    needs_upload: bool,
    dirty_tiles: Option<usize>,
)
    requires
        !input.always_upload,
        !input.refresh_image,
        render_effect(
            ImageRenderState {
                has_uploaded: true,
                last_payload_hash: Some(input.payload_hash),
                last_placement: Some(input.placement),
                ..s
            },
            after,
            input,
            dirty,
            cmds,
            needs_upload,
            dirty_tiles,
        ),
    ensures
        cmds.len() == 0,
        !needs_upload,
        dirty_tiles is None,
        after == (ImageRenderState {
            has_uploaded: true,
            last_payload_hash: Some(input.payload_hash),
            last_placement: Some(input.placement),
            ..s
        }),
{
}

/// A refresh always starts by deleting the shown image, and leaves
/// either an upload to do or the frame recorded as shown.
pub proof fn lemma_refresh_deletes_first(
    s: ImageRenderState,
    input: ImageRenderInput,
    after: ImageRenderState,
    dirty: Option<(Seq<DirtyRect>, bool)>,
    cmds: Seq<Seq<char>>,
    needs_upload: bool,
    dirty_tiles: Option<usize>,
)
    requires
        input.refresh_image,
        render_effect(s, after, input, dirty, cmds, needs_upload, dirty_tiles),
    ensures
        cmds.len() >= 1,
        cmds[0] == delete_command(),
        needs_upload || after.has_uploaded,
{
    let prefix: Seq<Seq<char>> = seq![delete_command()];
    match dirty {
        Some((rects, ok)) => {
            if rects.len() != 0 && ok {
                let next = input.rgba_frame->0;
                assert((prefix + patch_commands(next, rects))[0] == delete_command());
            }
        },
        None => {},
    }
}

} // verus!
