use garou::config::{
    default_image_extensions, parse_color, parse_csv_rgb_color, parse_hex_rgb_color, parse_named_color,
    parse_rgb_function_color, CacheConfig, DisplayConfig, ImageDiffMode, ImageFilterType, TermColor, TransportMode,
};
use garou::pipeline::{
    apply_transport_limit, effective_transport_mode, image_pixel_count, is_always_upload_mode, needs_resize,
    prepared_upload_kind, raw_rgba_payload, rgba_upload_bytes, should_decode_rgba_frame, terminal_pixel_limit,
    use_raw_rgba_direct, CacheStats, PreparedUpload,
};
use garou::kitty::{ResolvedTransport, UploadPixelFormat};

#[test]
fn defaults_match_the_documented_configuration() {
    let c = CacheConfig::default();
    assert_eq!((c.lru_size, c.max_bytes, c.prefetch_size), (10, 256 * 1024 * 1024, 1));
    let d = DisplayConfig::default();
    assert!(d.sidebar && d.header && d.statusbar);
    assert_eq!(d.sidebar_size, 20);
    assert_eq!((d.preview_debounce, d.poll_interval, d.prefetch_interval), (100, 10, 100));
    assert_eq!(d.header_bg_color, TermColor::DarkBlue);
    assert_eq!(d.header_fg_color, TermColor::White);
    assert_eq!(d.statusbar_bg_color, TermColor::DarkGrey);
    assert_eq!(d.statusbar_fg_color, TermColor::White);
    assert_eq!(default_image_extensions(), vec!["png", "jpg", "jpeg", "gif", "webp", "bmp"]);
    assert_eq!(ImageDiffMode::default(), ImageDiffMode::Full);
    assert_eq!(TransportMode::default(), TransportMode::Auto);
    assert_eq!(ImageFilterType::default(), ImageFilterType::Nearest);
}

#[test]
fn named_colours() {
    assert_eq!(parse_named_color("dark_blue"), Some(TermColor::DarkBlue));
    assert_eq!(parse_named_color("  Dark-Gray "), Some(TermColor::DarkGrey));
    assert_eq!(parse_named_color("GREY"), Some(TermColor::Grey));
    assert_eq!(parse_named_color("purple"), None);
}

#[test]
fn hex_colours() {
    assert_eq!(parse_hex_rgb_color("#1E90FF"), Some(TermColor::Rgb { r: 30, g: 144, b: 255 }));
    assert_eq!(parse_hex_rgb_color(" #000000 "), Some(TermColor::Rgb { r: 0, g: 0, b: 0 }));
    assert_eq!(parse_hex_rgb_color("#1E90F"), None);
    assert_eq!(parse_hex_rgb_color("1E90FF"), None);
    assert_eq!(parse_hex_rgb_color("#GG0000"), None);
    // a sign is read by from_str_radix
    assert_eq!(parse_hex_rgb_color("#+1FFFF"), Some(TermColor::Rgb { r: 1, g: 255, b: 255 }));
    // six bytes, split on character boundaries, but not digits
    assert_eq!(parse_hex_rgb_color("#ééé"), None);
}

#[test]
fn hex_colour_split_inside_a_character_is_no_colour() {
    // six bytes after '#', the first pair a hex byte, the second pair
    // ending inside '€'
    assert_eq!(parse_hex_rgb_color("#a€bc"), None);
    assert_eq!(parse_hex_rgb_color("#ab€c"), None);
    assert_eq!(parse_color("#a€bc"), None);
}

#[test]
fn rgb_function_colours() {
    assert_eq!(parse_rgb_function_color("rgb(30, 144, 255)"), Some(TermColor::Rgb { r: 30, g: 144, b: 255 }));
    assert_eq!(parse_rgb_function_color("RGB(1,2,3)"), Some(TermColor::Rgb { r: 1, g: 2, b: 3 }));
    assert_eq!(parse_rgb_function_color("rgb(1,2)"), None);
    assert_eq!(parse_rgb_function_color("rgb(1,2,3"), None);
    assert_eq!(parse_rgb_function_color("rgb(256,0,0)"), None);
}

#[test]
fn csv_colours() {
    assert_eq!(parse_csv_rgb_color("30,144,255"), Some(TermColor::Rgb { r: 30, g: 144, b: 255 }));
    assert_eq!(parse_csv_rgb_color(" +1 , 2 ,3 "), Some(TermColor::Rgb { r: 1, g: 2, b: 3 }));
    assert_eq!(parse_csv_rgb_color("1,2,3,4"), None);
    assert_eq!(parse_csv_rgb_color("1,,3"), None);
    assert_eq!(parse_csv_rgb_color("123"), None);
}

#[test]
fn colour_forms_tried_in_order() {
    assert_eq!(parse_color("white"), Some(TermColor::White));
    assert_eq!(parse_color("#FFFFFF"), Some(TermColor::Rgb { r: 255, g: 255, b: 255 }));
    assert_eq!(parse_color("rgb(0,0,1)"), Some(TermColor::Rgb { r: 0, g: 0, b: 1 }));
    assert_eq!(parse_color("0,1,0"), Some(TermColor::Rgb { r: 0, g: 1, b: 0 }));
    assert_eq!(parse_color("nothing"), None);
    assert_eq!(parse_color(""), None);
}

#[test]
fn terminal_pixel_bounds() {
    assert_eq!(terminal_pixel_limit(120, 40), (960, 608));
    assert_eq!(terminal_pixel_limit(0, 0), (1, 16));
    assert_eq!(terminal_pixel_limit(10, 2), (80, 16));
}

#[test]
fn transport_bounds() {
    assert_eq!(apply_transport_limit(960, 608, TransportMode::Direct, 5120, 2880), (960, 608));
    assert_eq!(apply_transport_limit(960, 608, TransportMode::File, 5120, 2880), (5120, 2880));
    assert_eq!(apply_transport_limit(960, 608, TransportMode::File, 0, 100), (u32::MAX, 100));
    assert_eq!(effective_transport_mode(TransportMode::File, (6000, 100), 5120, 2880), TransportMode::Direct);
    assert_eq!(effective_transport_mode(TransportMode::File, (6000, 100), 0, 2880), TransportMode::File);
    assert_eq!(effective_transport_mode(TransportMode::Direct, (1, 1), 5120, 2880), TransportMode::Direct);
    assert_eq!(effective_transport_mode(TransportMode::Auto, (10, 10), 5120, 2880), TransportMode::Auto);
}

#[test]
fn decoding_and_upload_thresholds() {
    assert_eq!(image_pixel_count((u32::MAX, 2)), (u32::MAX as u64) * 2);
    assert!(should_decode_rgba_frame((1000, 1000), ImageDiffMode::Full));
    assert!(!should_decode_rgba_frame((1000, 1000), ImageDiffMode::All));
    assert!(should_decode_rgba_frame((4096, 8192), ImageDiffMode::Half));
    assert!(!should_decode_rgba_frame((8192, 8192), ImageDiffMode::Half));
    assert!(is_always_upload_mode(ImageDiffMode::All));
    assert!(!is_always_upload_mode(ImageDiffMode::Full));
    assert!(needs_resize((1000, 10), 960, 608));
    assert!(!needs_resize((960, 608), 960, 608));
    assert_eq!(rgba_upload_bytes((256, 512)), 524288);
    assert!(use_raw_rgba_direct(TransportMode::Direct, (256, 512)));
    assert!(!use_raw_rgba_direct(TransportMode::Direct, (257, 512)));
    assert!(!use_raw_rgba_direct(TransportMode::File, (1, 1)));
}

#[test]
fn prepared_uploads() {
    assert_eq!(prepared_upload_kind(ResolvedTransport::File, false), PreparedUpload::WriteFile);
    assert_eq!(prepared_upload_kind(ResolvedTransport::TempFile, true), PreparedUpload::WriteFile);
    assert_eq!(prepared_upload_kind(ResolvedTransport::Direct, true), PreparedUpload::RawDirect);
    assert_eq!(prepared_upload_kind(ResolvedTransport::Direct, false), PreparedUpload::Later);
    assert_eq!(prepared_upload_kind(ResolvedTransport::SharedMemory, true), PreparedUpload::Later);
    let p = raw_rgba_payload("AAAA", 16, (2, 2));
    assert_eq!(p.transport, ResolvedTransport::Direct);
    assert_eq!(p.payload, "AAAA");
    assert_eq!(p.pixel_format, UploadPixelFormat::Rgba);
    assert_eq!((p.pixel_width, p.pixel_height, p.data_size), (2, 2, 16));
}

#[test]
fn cache_statistics_saturate() {
    let mut s = CacheStats { cache_requests: 0, cache_hits: 0 };
    s.record_cache_result(true);
    s.record_cache_result(false);
    assert_eq!((s.cache_requests, s.cache_hits), (2, 1));
    let mut full = CacheStats { cache_requests: u64::MAX, cache_hits: u64::MAX };
    full.record_cache_result(true);
    assert_eq!((full.cache_requests, full.cache_hits), (u64::MAX, u64::MAX));
}
