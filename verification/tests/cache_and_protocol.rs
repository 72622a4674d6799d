use garou::cache::{CacheState, ImageCache};
use garou::config::TransportMode;
use garou::kitty::{
    can_enable_shared_memory, is_shared_memory_terminal, is_ssh_session, prepare_upload_payload,
    resolve_transport_mode, send_delete, send_patch_rgba, send_place, send_upload, ResolvedTransport,
    SharedMemoryState, UploadPayload, UploadPixelFormat,
};

#[test]
fn cache_keeps_the_most_recent_entries() {
    let mut cache = ImageCache::new(2, 0);
    assert!(cache.enabled());
    cache.insert(1, vec![1, 1]);
    cache.insert(2, vec![2]);
    cache.insert(3, vec![3, 3, 3]);
    assert_eq!(cache.len(), 2);
    assert!(!cache.contains(1));
    assert!(cache.contains(2));
    assert_eq!(cache.get(3), Some(vec![3, 3, 3]));
    assert_eq!(cache.current_bytes(), 4);
}

#[test]
fn insertion_adds_no_other_key() {
    let mut cache = ImageCache::new(3, 0);
    cache.insert(4, vec![4]);
    cache.insert(7, vec![7]);
    cache.insert(9, vec![9]);
    cache.insert(7, vec![7, 7]);
    for other in 0..12 {
        if other != 7 {
            assert_eq!(cache.contains(other), other == 4 || other == 9);
        }
    }
    cache.insert(1, vec![1]);
    assert!(cache.contains(1));
    assert!(!cache.contains(4));
    for other in [0, 2, 3, 5, 6, 8, 10, 11] {
        assert!(!cache.contains(other));
    }
}

#[test]
fn a_read_makes_an_entry_recent() {
    let mut cache = ImageCache::new(2, 0);
    cache.insert(1, vec![1]);
    cache.insert(2, vec![2]);
    assert_eq!(cache.get(1), Some(vec![1]));
    cache.insert(3, vec![3]);
    assert!(cache.contains(1));
    assert!(!cache.contains(2));
}

#[test]
fn cache_bounded_by_bytes() {
    let mut cache = ImageCache::new(0, 5);
    cache.insert(1, vec![0; 3]);
    cache.insert(2, vec![0; 3]);
    assert!(!cache.contains(1));
    assert!(cache.contains(2));
    assert_eq!(cache.current_bytes(), 3);
}

#[test]
fn disabled_cache_stores_nothing() {
    let mut cache = ImageCache::new(0, 0);
    assert!(!cache.enabled());
    cache.insert(1, vec![1]);
    assert!(!cache.contains(1));
    assert_eq!(cache.get(1), None);
}

#[test]
fn reinserting_a_key_replaces_its_value() {
    let mut cache = ImageCache::new(3, 0);
    cache.insert(1, vec![1]);
    cache.insert(1, vec![9, 9]);
    assert_eq!(cache.len(), 1);
    assert_eq!(cache.get(1), Some(vec![9, 9]));
    cache.clear();
    assert_eq!(cache.len(), 0);
    assert_eq!(cache.current_bytes(), 0);
}

#[test]
fn kitty_ids_are_reused_for_the_same_payload() {
    let mut state = CacheState::new(4, 0);
    let (first, reused) = state.ensure_kitty_image_id(5, 77);
    assert_eq!((first, reused), (1, false));
    assert_eq!(state.ensure_kitty_image_id(5, 77), (1, true));
    assert_eq!(state.cached_kitty_image_id(5, 77), Some(1));
    let (second, reused) = state.ensure_kitty_image_id(5, 78);
    assert_eq!((second, reused), (2, false));
    assert_eq!(state.cached_kitty_image_id(5, 77), None);
    assert_eq!(state.ensure_kitty_image_id(6, 78), (3, false));
}

#[test]
fn kitty_id_counter_skips_zero() {
    let mut state = CacheState::new(4, 0);
    state.next_kitty_id = u32::MAX;
    assert_eq!(state.ensure_kitty_image_id(0, 1), (u32::MAX, false));
    assert_eq!(state.ensure_kitty_image_id(1, 1), (1, false));
    state.next_kitty_id = 0;
    assert_eq!(state.ensure_kitty_image_id(2, 1), (1, false));
}

#[test]
fn clearing_positions_forgets_entries() {
    let mut state = CacheState::new(4, 0);
    state.image_cache.insert(0, vec![1]);
    state.ensure_kitty_image_id(0, 3);
    state.clear_positions();
    assert_eq!(state.image_cache.len(), 0);
    assert_eq!(state.cached_kitty_image_id(0, 3), None);
}

fn payload(transport: ResolvedTransport, format: UploadPixelFormat) -> UploadPayload {
    UploadPayload {
        transport,
        payload: "QUJD".to_string(),
        data_size: 3,
        pixel_format: format,
        pixel_width: 2,
        pixel_height: 4,
    }
}

#[test]
fn delete_and_place_commands() {
    assert_eq!(send_delete(7), "\x1b_Ga=d,i=1\x1b\\");
    assert_eq!(send_place((3, 1, 40, 20), 9), "\x1b_Ga=p,C=1,c=40,r=20,i=1\x1b\\");
}

#[test]
fn upload_commands_for_each_medium() {
    let p = (0, 1, 10, 5);
    assert_eq!(
        send_upload(p, 1, &payload(ResolvedTransport::Direct, UploadPixelFormat::Png)),
        "\x1b_Ga=T,f=100,t=d,C=1,c=10,r=5,i=1;QUJD\x1b\\"
    );
    assert_eq!(
        send_upload(p, 1, &payload(ResolvedTransport::Direct, UploadPixelFormat::Rgba)),
        "\x1b_Ga=T,f=32,t=d,s=2,v=4,C=1,c=10,r=5,i=1;QUJD\x1b\\"
    );
    assert_eq!(
        send_upload(p, 1, &payload(ResolvedTransport::File, UploadPixelFormat::Png)),
        "\x1b_Ga=T,f=100,t=f,C=1,c=10,r=5,i=1;QUJD\x1b\\"
    );
    assert_eq!(
        send_upload(p, 1, &payload(ResolvedTransport::TempFile, UploadPixelFormat::Png)),
        "\x1b_Ga=T,f=100,t=t,C=1,c=10,r=5,i=1;QUJD\x1b\\"
    );
    assert_eq!(
        send_upload(p, 1, &payload(ResolvedTransport::SharedMemory, UploadPixelFormat::Png)),
        "\x1b_Ga=T,f=100,t=s,s=3,C=1,c=10,r=5,i=1;QUJD\x1b\\"
    );
}

#[test]
fn patch_command() {
    assert_eq!(send_patch_rgba(1, 2, 3, 4, 5, "AAAA"), "\x1b_Ga=f,f=32,i=1,x=2,y=3,s=4,v=5,C=1;AAAA\x1b\\");
}

#[test]
fn transport_resolution() {
    assert_eq!(resolve_transport_mode(TransportMode::Auto, true), ResolvedTransport::SharedMemory);
    assert_eq!(resolve_transport_mode(TransportMode::Auto, false), ResolvedTransport::Direct);
    assert_eq!(resolve_transport_mode(TransportMode::SharedMemory, false), ResolvedTransport::Direct);
    assert_eq!(resolve_transport_mode(TransportMode::Direct, true), ResolvedTransport::Direct);
    assert_eq!(resolve_transport_mode(TransportMode::File, true), ResolvedTransport::File);
    assert_eq!(resolve_transport_mode(TransportMode::TempFile, false), ResolvedTransport::TempFile);
}

#[test]
fn shared_memory_terminals() {
    assert!(is_shared_memory_terminal("WezTerm", ""));
    assert!(is_shared_memory_terminal("", "xterm-kitty"));
    assert!(is_shared_memory_terminal("my-KITTY-build", "xterm"));
    assert!(!is_shared_memory_terminal("Apple_Terminal", "xterm-256color"));
    assert!(!is_shared_memory_terminal("", "kitty"));
    assert!(is_ssh_session(false, true, false));
    assert!(!is_ssh_session(false, false, false));
    assert!(can_enable_shared_memory(true, false, true));
    assert!(!can_enable_shared_memory(true, true, true));
    assert!(!can_enable_shared_memory(false, false, true));
}

#[test]
fn upload_payload_names_the_written_file() {
    let p = prepare_upload_payload(ResolvedTransport::File, "ZW5j", 10, Some("abc"));
    assert_eq!(p.transport, ResolvedTransport::File);
    assert_eq!(p.payload, "YWJj");
    assert_eq!(p.data_size, 10);
    let q = prepare_upload_payload(ResolvedTransport::SharedMemory, "ZW5j", 10, Some("/garou-1-2"));
    assert_eq!(q.transport, ResolvedTransport::SharedMemory);
    assert_eq!(q.payload, "L2dhcm91LTEtMg==");
}

#[test]
fn upload_payload_falls_back_to_direct() {
    let p = prepare_upload_payload(ResolvedTransport::TempFile, "ZW5j", 10, None);
    assert_eq!(p.transport, ResolvedTransport::Direct);
    assert_eq!(p.payload, "ZW5j");
    assert_eq!(p.pixel_format, UploadPixelFormat::Png);
    let d = prepare_upload_payload(ResolvedTransport::Direct, "ZW5j", 10, Some("ignored"));
    assert_eq!(d.transport, ResolvedTransport::Direct);
    assert_eq!(d.payload, "ZW5j");
}

#[test]
fn file_targets_are_reused_for_file_uploads() {
    let mut s = SharedMemoryState::new();
    assert_eq!(s.file_target(false, "/tmp/one.png".to_string()), "/tmp/one.png");
    assert_eq!(s.file_target(false, "/tmp/two.png".to_string()), "/tmp/one.png");
    assert_eq!(s.file_target(true, "/tmp/t1.png".to_string()), "/tmp/t1.png");
    assert_eq!(s.file_target(true, "/tmp/t2.png".to_string()), "/tmp/t2.png");
    assert_eq!(s.temp_file_path, Some("/tmp/t2.png".to_string()));
    s.record_segment("/garou-1-1".to_string());
    assert_eq!(s.segment_name, Some("/garou-1-1".to_string()));
}
