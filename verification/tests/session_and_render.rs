use std::hash::{Hash, Hasher};
use garou::config::{ImageDiffMode, TransportMode};
use garou::frame::{decode_rgba_frame, extract_rect_rgba, find_dirty_rect, find_dirty_tiles, is_pixel_changed, DirtyRect, RgbaFrame};
use garou::kitty::{ResolvedTransport, UploadPayload, UploadPixelFormat};
use garou::render::{hash_image_payload, ImageRenderInput, ImageRenderState};
use garou::session::{
    idle_prefetch_due, prefetch_candidates, prefetch_needed, prepared_is_current, redraw_plan, PreviewState, RedrawPlan,
    ResponseAction,
};
use garou::viewer::{NavDirection, RedrawMode};

fn solid(width: u32, height: u32, rgba: [u8; 4]) -> RgbaFrame {
    let mut pixels = Vec::new();
    for _ in 0..(width * height) {
        pixels.extend_from_slice(&rgba);
    }
    RgbaFrame { width, height, pixels }
}

fn set_pixel(frame: &mut RgbaFrame, x: u32, y: u32, rgba: [u8; 4]) {
    let idx = ((y * frame.width + x) * 4) as usize;
    frame.pixels[idx..idx + 4].copy_from_slice(&rgba);
}

fn input(payload_hash: u64, diff_mode: ImageDiffMode, frame: Option<RgbaFrame>) -> ImageRenderInput {
    ImageRenderInput {
        placement: (2, 1, 10, 5),
        always_upload: false,
        diff_mode,
        payload_hash,
        refresh_image: false,
        tile_grid: 2,
        skip_step: 1,
        rgba_frame: frame,
    }
}

fn png_payload() -> UploadPayload {
    UploadPayload {
        transport: ResolvedTransport::Direct,
        payload: "QUJD".to_string(),
        data_size: 3,
        pixel_format: UploadPixelFormat::Png,
        pixel_width: 0,
        pixel_height: 0,
    }
}

#[test]
fn requests_get_new_generations_and_skip_awaited_images() {
    let mut state = PreviewState::new(2);
    assert_eq!(state.begin_request(3, 10, false, 1000), Some(1));
    assert_eq!(state.expected_preview_generation, Some((3, 1)));
    assert_eq!(state.pending_started_at, Some(1000));
    assert_eq!(state.begin_request(3, 10, false, 1010), None);
    assert_eq!(state.begin_request(3, 10, true, 1020), Some(2));
    assert_eq!(state.begin_request(10, 10, true, 1030), None);
    assert_eq!(state.preview_generation, 2);
}

#[test]
fn only_the_awaited_answer_is_used() {
    let mut state = PreviewState::new(2);
    let g = state.begin_request(4, 10, false, 0).unwrap();
    assert_eq!(state.accept_response(4, g + 1, 4, true), ResponseAction::Ignore);
    assert_eq!(state.expected_preview_generation, Some((4, g)));
    assert_eq!(state.accept_response(4, g, 4, true), ResponseAction::UsePayload);
    assert_eq!(state.expected_preview_generation, None);
    assert_eq!(state.accept_response(4, g, 4, true), ResponseAction::Ignore);

    let g = state.begin_request(5, 10, false, 0).unwrap();
    assert_eq!(state.accept_response(5, g, 5, false), ResponseAction::ShowError);
    let g = state.begin_request(6, 10, false, 0).unwrap();
    assert_eq!(state.accept_response(6, g, 7, true), ResponseAction::Drop);
}

#[test]
fn loading_notice_waits_for_its_delay() {
    let mut state = PreviewState::new(0);
    assert!(!state.loading_notice_due(false, 500));
    state.begin_request(0, 1, false, 1000);
    assert!(!state.loading_notice_due(false, 1099));
    assert!(state.loading_notice_due(false, 1100));
    assert!(!state.loading_notice_due(true, 1100));
    state.request_failed();
    assert!(!state.loading_notice_due(false, 2000));
}

#[test]
fn redraw_modes_map_to_plans() {
    assert_eq!(redraw_plan(RedrawMode::Idle, false, TransportMode::Auto), RedrawPlan::Nothing);
    assert_eq!(redraw_plan(RedrawMode::HeaderRefresh, false, TransportMode::Auto), RedrawPlan::HeaderOnly);
    assert_eq!(
        redraw_plan(RedrawMode::HeaderRefresh, true, TransportMode::Auto),
        RedrawPlan::Current { refresh_image: false, full_refresh: false }
    );
    assert_eq!(redraw_plan(RedrawMode::HeaderRefresh, true, TransportMode::File), RedrawPlan::HeaderOnly);
    assert_eq!(redraw_plan(RedrawMode::FullRefresh, false, TransportMode::Auto), RedrawPlan::Refresh { full_refresh: true });
    assert_eq!(redraw_plan(RedrawMode::ImageRefresh, false, TransportMode::Auto), RedrawPlan::Refresh { full_refresh: false });
    assert_eq!(redraw_plan(RedrawMode::ImageReplace, false, TransportMode::Auto), RedrawPlan::Prepared);
    assert!(prepared_is_current(2, 7, 2, 7));
    assert!(!prepared_is_current(2, 6, 2, 7));
    assert!(!prepared_is_current(1, 7, 2, 7));
}

#[test]
fn prefetch_walks_neighbours_with_wraparound() {
    assert_eq!(prefetch_candidates(0, 5, NavDirection::Forward, 2), vec![1, 2]);
    assert_eq!(prefetch_candidates(0, 5, NavDirection::Backward, 2), vec![4, 3]);
    assert_eq!(prefetch_candidates(0, 2, NavDirection::Forward, 3), vec![1, 1]);
    assert_eq!(prefetch_candidates(4, 5, NavDirection::Forward, 0), Vec::<usize>::new());
}

#[test]
fn prefetch_runs_once_per_position() {
    assert!(prefetch_needed(true, 1, 5, NavDirection::Forward, 2, None));
    assert!(!prefetch_needed(false, 1, 5, NavDirection::Forward, 2, None));
    assert!(!prefetch_needed(true, 0, 1, NavDirection::Forward, 2, None));
    assert!(!prefetch_needed(true, 1, 5, NavDirection::Forward, 2, Some((1, NavDirection::Forward, 2))));
    assert!(prefetch_needed(true, 1, 5, NavDirection::Forward, 3, Some((1, NavDirection::Forward, 2))));
    assert!(prefetch_needed(true, 1, 5, NavDirection::Backward, 2, Some((1, NavDirection::Forward, 2))));
    let mut state = PreviewState::new(2);
    state.record_prefetch(1, NavDirection::Forward, 2);
    assert_eq!(state.last_prefetch_state, Some((1, NavDirection::Forward, 2)));
}

#[test]
fn idle_prefetch_respects_its_interval() {
    assert!(idle_prefetch_due(RedrawMode::Idle, false, false, 2, None, 0, 200));
    assert!(!idle_prefetch_due(RedrawMode::FullRefresh, false, false, 2, None, 0, 200));
    assert!(!idle_prefetch_due(RedrawMode::Idle, true, false, 2, None, 0, 200));
    assert!(!idle_prefetch_due(RedrawMode::Idle, false, true, 2, None, 0, 200));
    assert!(!idle_prefetch_due(RedrawMode::Idle, false, false, 0, None, 0, 200));
    assert!(!idle_prefetch_due(RedrawMode::Idle, false, false, 2, Some(1000), 1100, 200));
    assert!(idle_prefetch_due(RedrawMode::Idle, false, false, 2, Some(1000), 1200, 200));
}

#[test]
fn pixel_changes_follow_the_diff_mode() {
    let prev = [10u8, 20, 30, 255, 1, 1, 1, 0];
    let next = [10u8, 21, 30, 255, 1, 1, 2, 7];
    assert!(is_pixel_changed(&prev, &next, 0, ImageDiffMode::Full));
    assert!(!is_pixel_changed(&prev, &next, 0, ImageDiffMode::Half));
    assert!(is_pixel_changed(&prev, &next, 4, ImageDiffMode::Half));
    assert!(!is_pixel_changed(&prev, &next, 4, ImageDiffMode::All));
    let alpha_only = [10u8, 20, 30, 0];
    assert!(!is_pixel_changed(&prev[..4], &alpha_only, 0, ImageDiffMode::Full));
}

#[test]
fn dirty_rect_bounds_all_changes() {
    let prev = solid(4, 3, [0, 0, 0, 255]);
    let mut next = solid(4, 3, [0, 0, 0, 255]);
    assert_eq!(
        find_dirty_rect(&prev, &next, ImageDiffMode::Full),
        Some(DirtyRect { x: 0, y: 0, width: 0, height: 0 })
    );
    set_pixel(&mut next, 1, 0, [9, 0, 0, 255]);
    set_pixel(&mut next, 2, 2, [0, 9, 0, 255]);
    assert_eq!(
        find_dirty_rect(&prev, &next, ImageDiffMode::Full),
        Some(DirtyRect { x: 1, y: 0, width: 2, height: 3 })
    );
    assert_eq!(
        find_dirty_rect(&prev, &next, ImageDiffMode::Half),
        Some(DirtyRect { x: 1, y: 0, width: 1, height: 1 })
    );
    assert_eq!(find_dirty_rect(&prev, &next, ImageDiffMode::All), None);
    let smaller = solid(2, 3, [0, 0, 0, 255]);
    assert_eq!(find_dirty_rect(&smaller, &next, ImageDiffMode::Full), None);
}

#[test]
fn dirty_tiles_list_changed_tiles_row_by_row() {
    let prev = solid(4, 4, [0, 0, 0, 255]);
    let mut next = solid(4, 4, [0, 0, 0, 255]);
    set_pixel(&mut next, 3, 0, [1, 0, 0, 255]);
    set_pixel(&mut next, 0, 3, [1, 0, 0, 255]);
    assert_eq!(
        find_dirty_tiles(&prev, &next, ImageDiffMode::Full, 2, 1),
        Some(vec![
            DirtyRect { x: 2, y: 0, width: 2, height: 2 },
            DirtyRect { x: 0, y: 2, width: 2, height: 2 },
        ])
    );
    assert_eq!(find_dirty_tiles(&prev, &next, ImageDiffMode::All, 2, 1), None);
    assert_eq!(find_dirty_tiles(&prev, &prev, ImageDiffMode::Full, 2, 1), Some(vec![]));
    let other = solid(3, 4, [0, 0, 0, 255]);
    assert_eq!(find_dirty_tiles(&other, &next, ImageDiffMode::Full, 2, 1), None);
}

#[test]
fn rectangles_are_extracted_row_by_row() {
    let mut frame = solid(3, 2, [0, 0, 0, 0]);
    set_pixel(&mut frame, 1, 0, [1, 2, 3, 4]);
    set_pixel(&mut frame, 2, 0, [5, 6, 7, 8]);
    set_pixel(&mut frame, 1, 1, [9, 10, 11, 12]);
    set_pixel(&mut frame, 2, 1, [13, 14, 15, 16]);
    let bytes = extract_rect_rgba(&frame, DirtyRect { x: 1, y: 0, width: 2, height: 2 });
    assert_eq!(bytes, (1u8..=16).collect::<Vec<u8>>());
}

#[test]
fn encoded_images_decode_to_rgba() {
    let img = image::RgbaImage::from_raw(2, 1, vec![255, 0, 0, 255, 0, 0, 255, 128]).unwrap();
    let mut bytes: Vec<u8> = Vec::new();
    img.write_to(&mut std::io::Cursor::new(&mut bytes), image::ImageFormat::Png).unwrap();
    let frame = decode_rgba_frame(&bytes).unwrap();
    assert_eq!((frame.width, frame.height), (2, 1));
    assert_eq!(frame.pixels, vec![255, 0, 0, 255, 0, 0, 255, 128]);
    assert!(decode_rgba_frame(b"not an image").is_none());
}

#[test]
fn first_render_uploads_and_a_repeat_sends_nothing() {
    let mut state = ImageRenderState::new();
    let first = input(7, ImageDiffMode::All, None);
    assert!(state.plan_dirty_tiles(&first).is_none());
    let step = state.render_image(first, None);
    assert!(step.needs_upload);
    assert!(step.commands.is_empty());
    let cmd = state.finish_upload((2, 1, 10, 5), &png_payload(), 7);
    assert_eq!(cmd, "\x1b_Ga=T,f=100,t=d,C=1,c=10,r=5,i=1;QUJD\x1b\\");
    assert!(state.has_active_image());

    let again = state.render_image(input(7, ImageDiffMode::All, None), None);
    assert!(!again.needs_upload);
    assert!(again.commands.is_empty());

    let mut moved = input(7, ImageDiffMode::All, None);
    moved.placement = (3, 1, 10, 5);
    let step = state.render_image(moved, None);
    assert!(!step.needs_upload);
    assert_eq!(step.commands, vec!["\x1b_Ga=p,C=1,c=10,r=5,i=1\x1b\\".to_string()]);
}

#[test]
fn changed_tiles_are_patched_in_place() {
    let mut state = ImageRenderState::new();
    let prev = solid(4, 4, [0, 0, 0, 255]);
    let step = state.render_image(input(1, ImageDiffMode::Full, Some(prev.clone())), None);
    assert!(step.needs_upload);
    state.finish_upload((2, 1, 10, 5), &png_payload(), 1);

    let mut next = prev.clone();
    set_pixel(&mut next, 3, 3, [1, 2, 3, 4]);
    let frame_input = input(2, ImageDiffMode::Full, Some(next));
    let tiles = state.plan_dirty_tiles(&frame_input).unwrap();
    assert_eq!(tiles, vec![DirtyRect { x: 2, y: 2, width: 2, height: 2 }]);
    let step = state.render_image(frame_input, Some((tiles, true)));
    assert!(!step.needs_upload);
    assert_eq!(step.dirty_tiles, Some(1));
    assert_eq!(step.commands.len(), 1);
    assert!(step.commands[0].starts_with("\x1b_Ga=f,f=32,i=1,x=2,y=2,s=2,v=2,C=1;"));
    assert_eq!(state.last_payload_hash, Some(2));
}

#[test]
fn refresh_deletes_the_shown_image_first() {
    let mut state = ImageRenderState::new();
    state.render_image(input(1, ImageDiffMode::All, None), None);
    state.finish_upload((2, 1, 10, 5), &png_payload(), 1);
    let mut refresh = input(1, ImageDiffMode::All, None);
    refresh.refresh_image = true;
    let step = state.render_image(refresh, None);
    assert!(step.needs_upload);
    assert_eq!(step.commands, vec!["\x1b_Ga=d,i=1\x1b\\".to_string()]);
    assert!(!state.has_active_image());
}

#[test]
fn payload_hash_feeds_the_bytes_the_mode_compares() {
    let data: Vec<u8> = (0u8..20).collect();

    let mut full = std::collections::hash_map::DefaultHasher::new();
    data.as_slice().hash(&mut full);
    assert_eq!(hash_image_payload(&data, ImageDiffMode::Full), full.finish());

    let mut half = std::collections::hash_map::DefaultHasher::new();
    data.len().hash(&mut half);
    for chunk in data.chunks(6) {
        for idx in [0usize, 2, 4] {
            if let Some(byte) = chunk.get(idx) {
                byte.hash(&mut half);
            }
        }
    }
    assert_eq!(hash_image_payload(&data, ImageDiffMode::Half), half.finish());

    let mut all = std::collections::hash_map::DefaultHasher::new();
    0u8.hash(&mut all);
    assert_eq!(hash_image_payload(&data, ImageDiffMode::All), all.finish());
    assert_eq!(hash_image_payload(&[1, 2], ImageDiffMode::All), all.finish());

    let mut changed = data.clone();
    changed[1] = 99;
    assert_eq!(hash_image_payload(&changed, ImageDiffMode::Half), hash_image_payload(&data, ImageDiffMode::Half));
    assert_ne!(hash_image_payload(&changed, ImageDiffMode::Full), hash_image_payload(&data, ImageDiffMode::Full));
}
