use garou::cache::{CacheState, ImageCache};
use garou::config::{ImageDiffMode, ImageFilterType, TransportMode};
use garou::pipeline::{
    ImageSettings, PrepareError, image_metadata_hash, load_encoded_payload, load_payload_hash, load_rgba_frame,
    prepare_image_payload,
};
use std::hash::{Hash, Hasher};

fn png_bytes(width: u32, height: u32, pixels: Vec<u8>) -> Vec<u8> {
    let img = image::RgbaImage::from_raw(width, height, pixels).unwrap();
    let mut bytes: Vec<u8> = Vec::new();
    img.write_to(&mut std::io::Cursor::new(&mut bytes), image::ImageFormat::Png).unwrap();
    bytes
}

#[test]
fn encoded_payload_is_standard_base64() {
    assert_eq!(load_encoded_payload(b"Man"), "TWFu");
    assert_eq!(load_encoded_payload(b"Ma"), "TWE=");
    assert_eq!(load_encoded_payload(b""), "");
}

#[test]
fn metadata_hash_matches_hashing_name_size_and_length() {
    let mut expected = std::collections::hash_map::DefaultHasher::new();
    "cat.png".hash(&mut expected);
    (640u32, 480u32).hash(&mut expected);
    1234u64.hash(&mut expected);
    assert_eq!(image_metadata_hash("/pics/cat.png", (640, 480), Some(1234)), expected.finish());

    let mut without_len = std::collections::hash_map::DefaultHasher::new();
    "cat.png".hash(&mut without_len);
    (640u32, 480u32).hash(&mut without_len);
    assert_eq!(image_metadata_hash("/pics/cat.png", (640, 480), None), without_len.finish());

    assert_ne!(
        image_metadata_hash("/pics/cat.png", (640, 480), Some(1234)),
        image_metadata_hash("/pics/cat.png", (640, 481), Some(1234))
    );
}

#[test]
fn payload_hash_is_computed_once_per_image() {
    let mut cache = CacheState::new(4, 0);
    let first = load_payload_hash(&mut cache, 2, "/pics/cat.png", (640, 480), Some(10));
    assert_eq!(first, image_metadata_hash("/pics/cat.png", (640, 480), Some(10)));
    assert_eq!(cache.payload_hash_of(2), Some(first));
    let again = load_payload_hash(&mut cache, 2, "/pics/dog.png", (1, 1), None);
    assert_eq!(again, first);
    assert_eq!(cache.payload_hash_of(3), None);
}

#[test]
fn recorded_facts_are_read_back_per_image() {
    let mut cache = CacheState::new(4, 0);
    assert_eq!(cache.image_dimensions_of(1), None);
    cache.record_image_dimensions(1, (20, 10));
    cache.record_payload_hash(1, 77);
    cache.record_metadata_hash(2, 5);
    assert_eq!(cache.image_dimensions_of(1), Some((20, 10)));
    assert_eq!(cache.payload_hash_of(1), Some(77));
    assert_eq!(cache.metadata_hash_of(1), None);
    assert_eq!(cache.metadata_hash_of(2), Some(5));
    assert_eq!(cache.image_dimensions_of(2), None);
    let (id, reused) = cache.ensure_kitty_image_id(1, 77);
    assert!(!reused);
    assert_eq!(cache.image_dimensions_of(1), Some((20, 10)));
    assert_eq!(cache.cached_kitty_image_id(1, 77), Some(id));
}

#[test]
fn decoded_frames_are_kept_with_cached_bytes() {
    let png = png_bytes(1, 2, vec![1, 2, 3, 4, 5, 6, 7, 8]);
    let mut cache = ImageCache::new(4, 0);
    cache.insert(0, png.clone());
    let frame = load_rgba_frame(&mut cache, 0, &png).unwrap();
    assert_eq!((frame.width, frame.height), (1, 2));
    assert_eq!(frame.pixels, vec![1, 2, 3, 4, 5, 6, 7, 8]);
    let kept = cache.get_rgba(0).unwrap();
    assert_eq!(kept.pixels, frame.pixels);

    let from_cache = load_rgba_frame(&mut cache, 0, b"not an image").unwrap();
    assert_eq!(from_cache.pixels, frame.pixels);

    assert!(load_rgba_frame(&mut cache, 1, b"not an image").is_none());
    let other = load_rgba_frame(&mut cache, 1, &png).unwrap();
    assert_eq!(other.width, 1);
    assert!(cache.get_rgba(1).is_none());
}

#[test]
fn disabled_cache_decodes_every_time() {
    let png = png_bytes(1, 1, vec![9, 9, 9, 9]);
    let mut cache = ImageCache::new(0, 0);
    let frame = load_rgba_frame(&mut cache, 0, &png).unwrap();
    assert_eq!(frame.pixels, vec![9, 9, 9, 9]);
    assert_eq!(cache.len(), 0);
}

fn solid(width: u32, height: u32, rgba: [u8; 4]) -> Vec<u8> {
    let mut pixels = Vec::new();
    for _ in 0..(width * height) {
        pixels.extend_from_slice(&rgba);
    }
    pixels
}

fn settings(transport_mode: TransportMode, term_cols: u16, term_rows: u16) -> ImageSettings {
    ImageSettings {
        diff_mode: ImageDiffMode::Full,
        transport_mode,
        filter: ImageFilterType::Nearest,
        width_limit: 0,
        height_limit: 0,
        allow_rgba_decode: true,
        term_cols,
        term_rows,
    }
}

#[test]
fn image_within_bounds_is_sent_as_read() {
    let pixels = solid(4, 2, [10, 20, 30, 255]);
    let bytes = png_bytes(4, 2, pixels.clone());
    let p = prepare_image_payload(&bytes, (4, 2), (4, 2), &settings(TransportMode::Auto, 120, 40), "/pics/a.png", Some(7))
        .unwrap();
    assert_eq!(p.image_data, bytes);
    assert_eq!(p.image_dimensions, (4, 2));
    assert_eq!(p.source_dimensions, (4, 2));
    assert_eq!(p.transport_mode, TransportMode::Auto);
    assert!(!p.raw_rgba_direct);
    assert_eq!(p.encoded_payload, load_encoded_payload(&bytes));
    assert_eq!(p.payload_hash, image_metadata_hash("/pics/a.png", (4, 2), Some(7)));
    let frame = p.rgba_frame.unwrap();
    assert_eq!((frame.width, frame.height), (4, 2));
    assert_eq!(frame.pixels, pixels);
}

#[test]
fn frame_is_not_kept_without_differencing() {
    let bytes = png_bytes(4, 2, solid(4, 2, [1, 2, 3, 255]));
    let mut s = settings(TransportMode::Auto, 120, 40);
    s.diff_mode = ImageDiffMode::All;
    let p = prepare_image_payload(&bytes, (4, 2), (4, 2), &s, "a.png", None).unwrap();
    assert!(p.rgba_frame.is_none());
    s.diff_mode = ImageDiffMode::Full;
    s.allow_rgba_decode = false;
    let p = prepare_image_payload(&bytes, (4, 2), (4, 2), &s, "a.png", None).unwrap();
    assert!(p.rgba_frame.is_none());
}

#[test]
fn large_image_goes_out_scaled_as_raw_pixels_when_direct() {
    // a terminal of 2 by 3 cells holds 16 by 16 pixels
    let bytes = png_bytes(40, 20, solid(40, 20, [200, 0, 0, 255]));
    let p = prepare_image_payload(&bytes, (40, 20), (16, 8), &settings(TransportMode::Direct, 2, 3), "big.png", Some(1))
        .unwrap();
    assert!(p.raw_rgba_direct);
    assert_eq!(p.transport_mode, TransportMode::Direct);
    assert_eq!(p.source_dimensions, (40, 20));
    assert_eq!(p.image_dimensions, (16, 8));
    assert_eq!(p.image_data, solid(16, 8, [200, 0, 0, 255]));
    assert_eq!(p.encoded_payload, load_encoded_payload(&p.image_data));
    assert_eq!(p.payload_hash, image_metadata_hash("big.png", (16, 8), Some(1)));
    let frame = p.rgba_frame.unwrap();
    assert_eq!((frame.width, frame.height), (16, 8));
    assert_eq!(frame.pixels, p.image_data);
}

#[test]
fn large_image_goes_out_scaled_as_png_otherwise() {
    let bytes = png_bytes(40, 20, solid(40, 20, [0, 0, 200, 255]));
    let p = prepare_image_payload(&bytes, (40, 20), (16, 8), &settings(TransportMode::Auto, 2, 3), "big.png", None)
        .unwrap();
    assert!(!p.raw_rgba_direct);
    assert_eq!(p.image_dimensions, (16, 8));
    assert_eq!(&p.image_data[..8], &[0x89, b'P', b'N', b'G', 0x0d, 0x0a, 0x1a, 0x0a]);
    let shown = image::load_from_memory(&p.image_data).unwrap().to_rgba8();
    assert_eq!(shown.dimensions(), (16, 8));
    assert_eq!(shown.into_raw(), solid(16, 8, [0, 0, 200, 255]));
    assert_eq!(p.rgba_frame.unwrap().pixels, solid(16, 8, [0, 0, 200, 255]));
}

#[test]
fn undecodable_large_image_is_refused() {
    let bytes = b"not an image".to_vec();
    let r = prepare_image_payload(&bytes, (100, 100), (16, 16), &settings(TransportMode::Direct, 2, 3), "x.png", None);
    assert_eq!(r.unwrap_err(), PrepareError::DecodeFailed);
    // within bounds the bytes are sent as they are, and no frame is kept
    let p = prepare_image_payload(&bytes, (4, 4), (4, 4), &settings(TransportMode::Direct, 120, 40), "x.png", None)
        .unwrap();
    assert_eq!(p.image_data, bytes);
    assert!(p.rgba_frame.is_none());
}

#[test]
fn scaled_image_keeps_its_colour_type() {
    let gray = image::GrayImage::from_raw(40, 20, vec![90u8; 800]).unwrap();
    let mut bytes: Vec<u8> = Vec::new();
    gray.write_to(&mut std::io::Cursor::new(&mut bytes), image::ImageFormat::Png).unwrap();
    let p = prepare_image_payload(&bytes, (40, 20), (16, 8), &settings(TransportMode::Auto, 2, 3), "g.png", None)
        .unwrap();
    let shown = image::load_from_memory(&p.image_data).unwrap();
    assert_eq!(shown.color(), image::ColorType::L8);
    assert_eq!(shown.into_bytes(), vec![90u8; 128]);
    assert_eq!(p.rgba_frame.unwrap().pixels, solid(16, 8, [90, 90, 90, 255]));

    let deep: image::ImageBuffer<image::Rgb<u16>, Vec<u16>> =
        image::ImageBuffer::from_raw(40, 20, vec![40000u16; 2400]).unwrap();
    let mut bytes: Vec<u8> = Vec::new();
    deep.write_to(&mut std::io::Cursor::new(&mut bytes), image::ImageFormat::Png).unwrap();
    let p = prepare_image_payload(&bytes, (40, 20), (16, 8), &settings(TransportMode::Auto, 2, 3), "d.png", None)
        .unwrap();
    let shown = image::load_from_memory(&p.image_data).unwrap();
    assert_eq!(shown.color(), image::ColorType::Rgb16);
    assert_eq!(shown.to_rgb16().into_raw(), vec![40000u16; 384]);
}

#[test]
fn scaled_grey_image_goes_out_as_rgba_when_direct() {
    let gray = image::GrayImage::from_raw(40, 20, vec![7u8; 800]).unwrap();
    let mut bytes: Vec<u8> = Vec::new();
    gray.write_to(&mut std::io::Cursor::new(&mut bytes), image::ImageFormat::Png).unwrap();
    let p = prepare_image_payload(&bytes, (40, 20), (16, 8), &settings(TransportMode::Direct, 2, 3), "g.png", None)
        .unwrap();
    assert!(p.raw_rgba_direct);
    assert_eq!(p.image_data, solid(16, 8, [7, 7, 7, 255]));
}
