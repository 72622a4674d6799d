use garou::cache::CacheState;
use garou::filetree::SidebarTree;
use garou::listing::DirEntry;
use garou::session::PendingStep;
use garou::sorting::{ImageFile, SortField};
use garou::viewer::{
    is_mouse_on_image, InputEvent, KeyAction, KeyCode, KeyInput, MouseInput, MouseKind, NavDirection, RedrawMode,
    ViewerCore, Viewport,
};

fn f(path: &str) -> DirEntry {
    DirEntry { path: path.to_string(), is_dir: false, is_file: true, entries: Vec::new() }
}

fn viewer(sidebar_visible: bool, current: usize) -> ViewerCore {
    let listing = vec![f("d/a.png"), f("d/b.png"), f("d/c.png")];
    let paths: Vec<String> = vec!["d/a.png".into(), "d/b.png".into(), "d/c.png".into()];
    let exts = vec!["png".to_string()];
    let tree = SidebarTree::from_image_files(&listing, &paths, current, &exts);
    ViewerCore {
        image_files: vec![
            ImageFile { path: "d/a.png".into(), modified_ms: 30, size: 5 },
            ImageFile { path: "d/b.png".into(), modified_ms: 10, size: 9 },
            ImageFile { path: "d/c.png".into(), modified_ms: 20, size: 1 },
        ],
        current_index: current,
        redraw_mode: RedrawMode::Idle,
        pending_replace: false,
        pending_deadline: None,
        sidebar_visible,
        sidebar_size: 20,
        header_visible: true,
        statusbar_visible: true,
        overlay_visible: false,
        pan_x: 0,
        pan_y: 0,
        last_image_rect: None,
        last_nav_direction: NavDirection::Forward,
        sort_field: SortField::Natural,
        sort_descending: false,
        sidebar_tree: tree,
        cache: CacheState::new(10, 0),
    }
}

fn key(c: char) -> KeyInput {
    KeyInput { code: KeyCode::Char(c), alt: false, control: false }
}

fn code(c: KeyCode) -> KeyInput {
    KeyInput { code: c, alt: false, control: false }
}

#[test]
fn next_then_previous_returns_to_the_same_image() {
    let mut v = viewer(false, 0);
    assert_eq!(v.process_key(key('l'), 0, 0, 24), KeyAction::Continue);
    assert_eq!(v.current_index, 1);
    assert_eq!(v.redraw_mode, RedrawMode::ImageReplace);
    assert_eq!(v.last_nav_direction, NavDirection::Forward);
    v.process_key(key('h'), 0, 0, 24);
    assert_eq!(v.current_index, 0);
    assert_eq!(v.last_nav_direction, NavDirection::Backward);
}

#[test]
fn stepping_wraps_around_the_list() {
    let mut v = viewer(false, 0);
    v.process_key(code(KeyCode::Left), 0, 0, 24);
    assert_eq!(v.current_index, 2);
    v.process_key(code(KeyCode::Right), 0, 0, 24);
    assert_eq!(v.current_index, 0);
    assert_eq!(v.sidebar_tree.cursor_image_index(), Some(0));
}

#[test]
fn debounced_replacement_waits_for_its_deadline() {
    let mut v = viewer(false, 0);
    v.process_key(key('l'), 100, 50, 24);
    assert_eq!(v.redraw_mode, RedrawMode::HeaderRefresh);
    assert!(v.pending_replace);
    assert_eq!(v.pending_deadline, Some(150));
    assert_eq!(v.pending_replace_step(100), PendingStep::Wait(5));
    assert_eq!(v.pending_replace_step(148), PendingStep::Wait(2));
    assert_eq!(v.pending_replace_step(150), PendingStep::Fire);
    assert!(!v.pending_replace);
    assert_eq!(v.pending_deadline, None);
    assert_eq!(v.redraw_mode, RedrawMode::Idle);
    assert_eq!(v.pending_replace_step(200), PendingStep::NotPending);
}

#[test]
fn quitting_opening_and_zooming() {
    let mut v = viewer(false, 1);
    assert_eq!(v.process_key(key('q'), 0, 0, 24), KeyAction::Quit);
    assert_eq!(v.process_key(code(KeyCode::Esc), 0, 0, 24), KeyAction::Quit);
    assert_eq!(v.process_key(key('o'), 0, 0, 24), KeyAction::OpenImage(1));
    assert_eq!(v.process_key(key('+'), 0, 0, 24), KeyAction::ZoomIn);
    assert_eq!(v.redraw_mode, RedrawMode::ImageRefresh);
    assert_eq!(v.process_key(key('-'), 0, 0, 24), KeyAction::ZoomOut);
    v.pan_x = 4;
    assert_eq!(v.process_key(key('0'), 0, 0, 24), KeyAction::FitImage);
    assert_eq!((v.pan_x, v.pan_y), (0, 0));
}

#[test]
fn layout_toggles_ask_for_a_full_redraw() {
    let mut v = viewer(false, 0);
    v.process_key(KeyInput { code: KeyCode::Char('s'), alt: true, control: false }, 0, 0, 24);
    assert!(v.sidebar_visible);
    assert_eq!(v.redraw_mode, RedrawMode::FullRefresh);
    v.process_key(KeyInput { code: KeyCode::Char('D'), alt: true, control: false }, 0, 0, 24);
    assert!(!v.statusbar_visible);
    v.process_key(KeyInput { code: KeyCode::Char('f'), alt: true, control: false }, 0, 0, 24);
    assert!(!v.header_visible);
    v.process_key(code(KeyCode::Tab), 0, 0, 24);
    assert!(v.overlay_visible);
    v.process_key(key('r'), 0, 0, 24);
    assert_eq!(v.redraw_mode, RedrawMode::ImageRefresh);
    v.process_key(key('R'), 0, 0, 24);
    assert_eq!(v.redraw_mode, RedrawMode::FullRefresh);
}

#[test]
fn panning_saturates() {
    let mut v = viewer(false, 0);
    v.process_key(key('H'), 0, 0, 24);
    v.process_key(key('J'), 0, 0, 24);
    assert_eq!((v.pan_x, v.pan_y), (-2, 1));
    v.pan_x = i16::MAX - 1;
    v.process_key(key('L'), 0, 0, 24);
    assert_eq!(v.pan_x, i16::MAX);
    v.last_image_rect = Some((0, 0, 10, 10));
    v.pan_x = -100;
    v.pan_y = -9;
    v.process_key(key('K'), 0, 0, 24);
    assert_eq!((v.pan_x, v.pan_y), (0, -2));
}

#[test]
fn pages_and_ends_with_the_sidebar_hidden() {
    let mut v = viewer(false, 0);
    v.process_key(KeyInput { code: KeyCode::Char('f'), alt: false, control: true }, 0, 0, 24);
    assert_eq!(v.current_index, 2);
    v.process_key(KeyInput { code: KeyCode::Char('b'), alt: false, control: true }, 0, 0, 24);
    assert_eq!(v.current_index, 0);
    v.process_key(key('G'), 0, 0, 24);
    assert_eq!(v.current_index, 2);
    v.redraw_mode = RedrawMode::Idle;
    v.process_key(key('G'), 0, 0, 24);
    assert_eq!(v.redraw_mode, RedrawMode::Idle);
    v.process_key(key('g'), 0, 0, 24);
    assert_eq!(v.current_index, 0);
}

#[test]
fn sidebar_keys_move_its_cursor() {
    let mut v = viewer(true, 1);
    v.process_key(key('k'), 0, 0, 24);
    assert_eq!(v.current_index, 0);
    v.process_key(code(KeyCode::Down), 0, 0, 24);
    assert_eq!(v.current_index, 1);
    v.redraw_mode = RedrawMode::Idle;
    v.process_key(key('G'), 0, 0, 24);
    assert_eq!(v.current_index, 2);
    v.redraw_mode = RedrawMode::Idle;
    v.process_key(key('j'), 0, 0, 24);
    assert_eq!(v.redraw_mode, RedrawMode::Idle);
    v.process_key(key('l'), 0, 0, 24);
    assert_eq!(v.current_index, 2);
}

#[test]
fn sorting_keeps_the_current_image() {
    let mut v = viewer(false, 1);
    v.cache.image_cache.insert(0, vec![1]);
    v.process_key(key('S'), 0, 0, 24);
    let order: Vec<&str> = v.image_files.iter().map(|f| f.path.as_str()).collect();
    assert_eq!(order, vec!["d/b.png", "d/a.png", "d/c.png"]);
    assert_eq!(v.current_index, 0);
    assert_eq!(v.sort_field, SortField::Size);
    assert!(v.sort_descending);
    assert_eq!(v.cache.image_cache.len(), 0);
    assert_eq!(v.redraw_mode, RedrawMode::FullRefresh);
    v.process_key(key('m'), 0, 0, 24);
    let order: Vec<&str> = v.image_files.iter().map(|f| f.path.as_str()).collect();
    assert_eq!(order, vec!["d/b.png", "d/c.png", "d/a.png"]);
    assert_eq!(v.current_index, 0);
    assert_eq!(v.sidebar_tree.cursor_image_index(), Some(0));
}

#[test]
fn mouse_scrolls_zoom_over_the_image_and_move_the_sidebar() {
    let mut v = viewer(true, 1);
    v.last_image_rect = Some((20, 1, 10, 5));
    let over = MouseInput { kind: MouseKind::ScrollUp, column: 25, row: 2 };
    assert!(is_mouse_on_image(over, v.last_image_rect));
    assert_eq!(v.process_mouse(over, 0, 0, 20, 24), KeyAction::ZoomIn);
    let side = MouseInput { kind: MouseKind::ScrollUp, column: 3, row: 2 };
    assert_eq!(v.process_mouse(side, 0, 0, 20, 24), KeyAction::Continue);
    assert_eq!(v.current_index, 0);
    let click = MouseInput { kind: MouseKind::LeftDown, column: 3, row: 3 };
    v.process_mouse(click, 0, 0, 20, 24);
    assert_eq!(v.current_index, 2);
}

#[test]
fn events_report_quit_and_index_changes() {
    let mut v = viewer(false, 0);
    let mut vp = Viewport { width: 80, height: 24 };
    let out = v.handle_event(InputEvent::Key(key('l')), &mut vp, 0, 0);
    assert!(out.index_changed && !out.quit);
    let out = v.handle_event(InputEvent::Key(key('q')), &mut vp, 0, 0);
    assert!(out.quit && !out.index_changed);
    let out = v.handle_event(InputEvent::Resize(100, 30), &mut vp, 0, 0);
    assert_eq!((vp.width, vp.height), (100, 30));
    assert_eq!(v.redraw_mode, RedrawMode::LayoutRefresh);
    assert!(!out.quit);
    let out = v.handle_event(InputEvent::Other, &mut vp, 0, 0);
    assert_eq!(out.action, KeyAction::Continue);
}

#[test]
fn empty_list_ignores_keys() {
    let mut v = viewer(false, 0);
    v.image_files.clear();
    assert_eq!(v.process_key(key('q'), 0, 0, 24), KeyAction::Continue);
    assert_eq!(v.redraw_mode, RedrawMode::Idle);
}
