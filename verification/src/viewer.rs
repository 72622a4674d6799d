//! The viewer's state machine: what a key press, a mouse event or a
//! terminal resize does to the current image, the sidebar, the layout
//! flags and the pending redraw. Time is carried as milliseconds from an
//! arbitrary start, supplied by the caller.
use vstd::prelude::*;
use crate::filetree::{SidebarTree, synced_to, reindexed, cursor_set, clamp_cursor, page_step, dir_toggled, dir_collapsed, dir_expanded, isize_wrap};
use crate::sorting::{ImageFile, SortField, sort_image_files, stably_sorted, position_of_path};
use crate::cache::CacheState;

verus! {

/// What the next pass of the main loop has to redraw.
#[derive(Debug, Clone, Copy, PartialEq, Eq, Structural)]
pub enum RedrawMode {
    /// Nothing.
    Idle,
    /// The header (and sidebar) only.
    HeaderRefresh,
    /// The whole layout, with the image uploaded again.
    FullRefresh,
    /// The whole layout after a change of the terminal size.
    LayoutRefresh,
    /// The image, updated in place.
    ImageRefresh,
    /// The image, replaced by a newly prepared one.
    ImageReplace,
}

/// The direction of the last move through the image list.
#[derive(Debug, Clone, Copy, PartialEq, Eq, Structural)]
pub enum NavDirection {
    Forward,
    Backward,
}

/// The size of the terminal in cells.
#[derive(Debug, Clone, Copy, PartialEq, Eq, Structural)]
pub struct Viewport {
    pub width: u16,
    pub height: u16,
}

/// The viewer's state as the input handlers see it.
pub struct ViewerCore {
    pub image_files: Vec<ImageFile>,
    pub current_index: usize,
    pub redraw_mode: RedrawMode,
    /// An image replacement waits for its deadline.
    pub pending_replace: bool,
    /// When the pending replacement is due, in milliseconds.
    pub pending_deadline: Option<u64>,
    pub sidebar_visible: bool,
    pub sidebar_size: u16,
    pub header_visible: bool,
    pub statusbar_visible: bool,
    pub overlay_visible: bool,
    /// Horizontal pan, in cells.
    pub pan_x: i16,
    /// Vertical pan, in cells.
    pub pan_y: i16,
    /// Where the image was last drawn: column, row, width and height in cells.
    pub last_image_rect: Option<(u16, u16, u32, u32)>,
    pub last_nav_direction: NavDirection,
    pub sort_field: SortField,
    pub sort_descending: bool,
    pub sidebar_tree: SidebarTree,
    pub cache: CacheState,
}

impl ViewerCore {
    /// The sidebar tree and the caches are well formed.
    pub open spec fn wf(&self) -> bool {
        &&& self.sidebar_tree.wf()
        &&& self.cache.wf()
    }

    /// `self` with the pending replacement scheduled `debounce_ms` after
    /// `now_ms` (or cleared when there is no debounce).
    pub open spec fn with_replace_scheduled(self, debounce_ms: u64, now_ms: u64) -> ViewerCore {
        if debounce_ms == 0 {
            ViewerCore { pending_replace: false, pending_deadline: None, ..self }
        } else {
            ViewerCore { pending_replace: true, pending_deadline: Some((now_ms + debounce_ms) as u64), ..self }
        }
    }

    /// `self` with a redraw scheduled after a change of the current image:
    /// the image is replaced at once without debounce, else the header is
    /// refreshed now and the replacement waits.
    pub open spec fn with_redraw_scheduled(self, debounce_ms: u64, now_ms: u64) -> ViewerCore {
        ViewerCore {
            redraw_mode: if debounce_ms == 0 {
                RedrawMode::ImageReplace
            } else {
                RedrawMode::HeaderRefresh
            },
            ..self
        }.with_replace_scheduled(debounce_ms, now_ms)
    }

    /// `self` with no pending replacement and the given redraw.
    pub open spec fn with_cleared(self, mode: RedrawMode) -> ViewerCore {
        ViewerCore { pending_replace: false, pending_deadline: None, redraw_mode: mode, ..self }
    }

    /// Schedules the pending replacement.
    pub fn schedule_replace(&mut self, debounce_ms: u64, now_ms: u64)
        requires
            now_ms + debounce_ms <= u64::MAX,
        ensures
            *final(self) == old(self).with_replace_scheduled(debounce_ms, now_ms),
    {
        if debounce_ms == 0 {
            self.pending_replace = false;
            self.pending_deadline = None;
        } else {
            self.pending_replace = true;
            self.pending_deadline = Some(now_ms + debounce_ms);
        }
    }

    /// Drops the pending replacement.
    pub fn clear_pending_replace(&mut self)
        ensures
            *final(self) == (ViewerCore { pending_replace: false, pending_deadline: None, ..*old(self) }),
    {
        self.pending_replace = false;
        self.pending_deadline = None;
    }

    /// Schedules the redraw that follows a change of the current image.
    pub fn schedule_redraw(&mut self, debounce_ms: u64, now_ms: u64)
        requires
            now_ms + debounce_ms <= u64::MAX,
        ensures
            *final(self) == old(self).with_redraw_scheduled(debounce_ms, now_ms),
    {
        self.redraw_mode = if debounce_ms == 0 {
            RedrawMode::ImageReplace
        } else {
            RedrawMode::HeaderRefresh
        };
        self.schedule_replace(debounce_ms, now_ms);
    }

    /// Drops the pending replacement and asks for a full redraw.
    pub fn clear_and_full_refresh(&mut self)
        ensures
            *final(self) == old(self).with_cleared(RedrawMode::FullRefresh),
    {
        self.clear_pending_replace();
        self.redraw_mode = RedrawMode::FullRefresh;
    }

    /// Drops the pending replacement and asks for an image refresh.
    pub fn clear_and_image_refresh(&mut self)
        ensures
            *final(self) == old(self).with_cleared(RedrawMode::ImageRefresh),
    {
        self.clear_pending_replace();
        self.redraw_mode = RedrawMode::ImageRefresh;
    }
}


/// The image position of the file under the sidebar cursor, if any.
pub open spec fn cursor_image(t: SidebarTree) -> Option<usize> {
    match t.cursor_node() {
        Some(id) => if t.node_seq()[id as int].is_dir {
            None
        } else {
            t.image_indices()[id as int]
        },
        None => None,
    }
}

/// The paths of the image list.
pub open spec fn paths_of(files: Seq<ImageFile>) -> Seq<String> {
    files.map_values(|f: ImageFile| f.path)
}

/// `b` is the sidebar `a` after it was synced to image `index` of `files`
/// (unchanged when there is no such image).
pub open spec fn tree_synced_for(a: SidebarTree, b: SidebarTree, files: Seq<ImageFile>, index: int) -> bool {
    if 0 <= index < files.len() {
        synced_to(a, b, files[index].path@)
    } else {
        b == a
    }
}

impl ViewerCore {
    /// `self` after the sidebar cursor moved: the file under it becomes
    /// the current image and a redraw is scheduled, or, on a directory,
    /// the header is refreshed.
    pub open spec fn after_cursor_change(self, debounce_ms: u64, now_ms: u64) -> ViewerCore {
        match cursor_image(self.sidebar_tree) {
            Some(i) => ViewerCore { current_index: i, ..self }.with_redraw_scheduled(debounce_ms, now_ms),
            None => ViewerCore { redraw_mode: RedrawMode::HeaderRefresh, ..self },
        }
    }

    /// `self` with its sidebar replaced by `t`.
    pub open spec fn with_tree(self, t: SidebarTree) -> ViewerCore {
        ViewerCore { sidebar_tree: t, ..self }
    }

    /// Follows a move of the sidebar cursor.
    pub fn apply_sidebar_cursor_change(&mut self, debounce_ms: u64, now_ms: u64)
        requires
            old(self).wf(),
            now_ms + debounce_ms <= u64::MAX,
        ensures
            *final(self) == old(self).after_cursor_change(debounce_ms, now_ms),
    {
        match self.sidebar_tree.cursor_image_index() {
            Some(i) => {
                self.current_index = i;
                self.schedule_redraw(debounce_ms, now_ms);
            },
            None => {
                self.redraw_mode = RedrawMode::HeaderRefresh;
            },
        }
    }

    /// Reveals the current image in the sidebar and records the direction
    /// of the move that led to it.
    pub fn sync_sidebar_to_image(&mut self, direction: NavDirection)
        requires
            old(self).wf(),
        ensures
            final(self).wf(),
            *final(self) == (ViewerCore { last_nav_direction: direction, ..*old(self) }).with_tree(final(self).sidebar_tree),
            tree_synced_for(old(self).sidebar_tree, final(self).sidebar_tree, old(self).image_files@, old(self).current_index as int),
    {
        if self.current_index < self.image_files.len() {
            let path = self.image_files[self.current_index].path.clone();
            self.sidebar_tree.sync_cursor_to_image(path.as_str());
        }
        self.last_nav_direction = direction;
    }
}


/// `v` saturated to the range of `i16`.
pub open spec fn sat_i16(v: int) -> i16 {
    if v < i16::MIN {
        i16::MIN
    } else if v > i16::MAX {
        i16::MAX
    } else {
        v as i16
    }
}

/// The horizontal pan with the overrun at the left and right screen edges
/// removed: an image drawn at column 0 cannot be panned further left than
/// the sidebar's width, one drawn at the last column no further right.
pub open spec fn pan_x_trimmed(rect: Option<(u16, u16, u32, u32)>, sidebar_visible: bool, sidebar_size: u16, pan_x: i16) -> i16 {
    match rect {
        Some((x, _, _, _)) => {
            let base_x: int = if sidebar_visible {
                sidebar_size as int
            } else {
                0
            };
            let p1 = if x == 0 && pan_x < -base_x {
                -base_x
            } else {
                pan_x as int
            };
            let p2 = if x == u16::MAX && p1 > u16::MAX - base_x {
                u16::MAX - base_x
            } else {
                p1
            };
            sat_i16(p2)
        },
        None => pan_x,
    }
}

/// The vertical pan with the overrun at the top edge removed.
pub open spec fn pan_y_trimmed(rect: Option<(u16, u16, u32, u32)>, pan_y: i16) -> i16 {
    match rect {
        Some((_, y, _, _)) => if y == 0 && pan_y < -1 {
            -1i16
        } else {
            pan_y
        },
        None => pan_y,
    }
}

fn sat_add_i16(a: i16, b: i16) -> (r: i16)
    ensures
        r == sat_i16(a + b),
{
    let s: i32 = a as i32 + b as i32;
    if s < -32768 {
        i16::MIN
    } else if s > 32767 {
        i16::MAX
    } else {
        s as i16
    }
}

impl ViewerCore {
    /// `self` after a pan by `(dx, dy)` cells.
    pub open spec fn panned(self, dx: i16, dy: i16) -> ViewerCore {
        let px = pan_x_trimmed(self.last_image_rect, self.sidebar_visible, self.sidebar_size, self.pan_x);
        let py = pan_y_trimmed(self.last_image_rect, self.pan_y);
        ViewerCore { pan_x: sat_i16(px + dx), pan_y: sat_i16(py + dy), ..self }.with_cleared(RedrawMode::ImageRefresh)
    }

    /// Pans the image by `(dx, dy)` cells, saturating, after trimming the
    /// overrun at the screen edges.
    pub fn pan_image(&mut self, dx: i16, dy: i16)
        ensures
            *final(self) == old(self).panned(dx, dy),
    {
        if let Some((x, y, _, _)) = self.last_image_rect {
            let base_x: i32 = if self.sidebar_visible {
                self.sidebar_size as i32
            } else {
                0
            };
            let mut pan_x: i32 = self.pan_x as i32;
            let mut pan_y: i32 = self.pan_y as i32;
            let min_pan_x: i32 = -base_x;
            if x == 0 && pan_x < min_pan_x {
                pan_x = min_pan_x;
            }
            let max_pan_x: i32 = 65535 - base_x;
            if x == u16::MAX && pan_x > max_pan_x {
                pan_x = max_pan_x;
            }
            if y == 0 && pan_y < -1 {
                pan_y = -1;
            }
            let clamped_x: i16 = if pan_x < -32768 {
                i16::MIN
            } else if pan_x > 32767 {
                i16::MAX
            } else {
                pan_x as i16
            };
            let clamped_y: i16 = if pan_y < -32768 {
                i16::MIN
            } else if pan_y > 32767 {
                i16::MAX
            } else {
                pan_y as i16
            };
            self.pan_x = clamped_x;
            self.pan_y = clamped_y;
        }
        self.pan_x = sat_add_i16(self.pan_x, dx);
        self.pan_y = sat_add_i16(self.pan_y, dy);
        self.clear_pending_replace();
        self.redraw_mode = RedrawMode::ImageRefresh;
    }

    /// Resets the pan to the origin.
    pub fn reset_pan(&mut self)
        ensures
            *final(self) == (ViewerCore { pan_x: 0, pan_y: 0, ..*old(self) }),
    {
        self.pan_x = 0;
        self.pan_y = 0;
    }
}


/// The paths of the image list, as `String`s.
fn image_paths(files: &Vec<ImageFile>) -> (r: Vec<String>)
    ensures
        r@ == paths_of(files@),
{
    let mut out: Vec<String> = Vec::new();
    let mut i: usize = 0;
    while i < files.len()
        invariant
            i <= files@.len(),
            out@ == paths_of(files@).take(i as int),
        decreases files@.len() - i,
    {
        out.push(files[i].path.clone());
        assert(paths_of(files@).take(i + 1) == paths_of(files@).take(i as int).push(files@[i as int].path));
        i = i + 1;
    }
    assert(paths_of(files@).take(files@.len() as int) == paths_of(files@));
    out
}

/// Where the current image goes in the re-ordered list `files`: to the
/// first place of its path `cur`, or nowhere new when the path is gone.
pub open spec fn follows_path(files: Seq<ImageFile>, cur: Option<String>, before: usize, after: usize) -> bool {
    match cur {
        Some(p) => if exists|k: int| 0 <= k < files.len() && #[trigger] files[k].path@ == p@ {
            &&& after < files.len()
            &&& files[after as int].path@ == p@
            &&& forall|m: int| 0 <= m < after ==> #[trigger] files[m].path@ != p@
        } else {
            after == before
        },
        None => after == before,
    }
}

/// The sidebar after a sort: re-indexed for `files` and, given the path of
/// the current image, synced to it.
pub open spec fn tree_after_sort(a: SidebarTree, b: SidebarTree, files: Seq<String>, cur: Option<String>) -> bool {
    match cur {
        None => reindexed(a, b, files),
        Some(p) => exists|mid: SidebarTree| reindexed(a, mid, files) && synced_to(mid, b, p@),
    }
}

/// `b` is `a` after the image list was sorted by `field` (reversed when
/// `descending`): the list is stably sorted, the current image keeps its
/// place under its path, the sidebar is re-indexed and synced to it, the
/// per-position caches are emptied and a full redraw is due.
pub open spec fn sorted_state(a: ViewerCore, b: ViewerCore, field: SortField, descending: bool) -> bool {
    let n = a.image_files@.len();
    let cur = if a.current_index < n {
        Some(a.image_files@[a.current_index as int].path)
    } else {
        None
    };
    &&& stably_sorted(a.image_files@, b.image_files@, field, descending)
    &&& b == (ViewerCore {
        image_files: b.image_files,
        current_index: b.current_index,
        sort_field: field,
        sort_descending: descending,
        sidebar_tree: b.sidebar_tree,
        cache: b.cache,
        ..a
    }).with_cleared(RedrawMode::FullRefresh)
    &&& follows_path(b.image_files@, cur, a.current_index, b.current_index)
    &&& tree_after_sort(a.sidebar_tree, b.sidebar_tree, paths_of(b.image_files@), cur)
    &&& b.cache.image_cache.entries().len() == 0
    &&& b.cache.image_cache.lru_bound() == a.cache.image_cache.lru_bound()
    &&& b.cache.image_cache.byte_bound() == a.cache.image_cache.byte_bound()
    &&& b.cache.entry_seq().len() == 0
    &&& b.cache.next_id() == a.cache.next_id()
}

impl ViewerCore {
    /// Sorts the image list by `new_field` (descending when
    /// `new_descending`) and follows the current image to its new place;
    /// nothing happens on an empty list.
    #[verifier::spinoff_prover]
    pub fn apply_sort(&mut self, new_field: SortField, new_descending: bool)
        requires
            old(self).wf(),
        ensures
            final(self).wf(),
            old(self).image_files@.len() == 0 ==> *final(self) == *old(self),
            old(self).image_files@.len() > 0 ==> sorted_state(*old(self), *final(self), new_field, new_descending),
    {
        if self.image_files.len() == 0 {
            return;
        }
        let current_path: Option<String> = if self.current_index < self.image_files.len() {
            Some(self.image_files[self.current_index].path.clone())
        } else {
            None
        };
        self.sort_field = new_field;
        self.sort_descending = new_descending;
        sort_image_files(&mut self.image_files, new_field, new_descending);
        match &current_path {
            Some(p) => {
                match position_of_path(&self.image_files, p) {
                    Some(k) => {
                        self.current_index = k;
                    },
                    None => {},
                }
            },
            None => {},
        }
        let paths = image_paths(&self.image_files);
        match &current_path {
            Some(p) => self.sidebar_tree.refresh_image_index_map(&paths, Some(p.as_str())),
            None => self.sidebar_tree.refresh_image_index_map(&paths, None),
        }
        self.cache.clear_positions();
        self.clear_pending_replace();
        self.redraw_mode = RedrawMode::FullRefresh;
    }
}


/// A key, as the viewer tells keys apart.
#[derive(Debug, Clone, Copy, PartialEq, Eq, Structural)]
pub enum KeyCode {
    Char(char),
    Esc,
    Tab,
    Enter,
    Up,
    Down,
    Left,
    Right,
    Other,
}

/// A key press with the modifiers that matter.
#[derive(Debug, Clone, Copy, PartialEq, Eq, Structural)]
pub struct KeyInput {
    pub code: KeyCode,
    pub alt: bool,
    pub control: bool,
}

/// What the caller has to do after an input was handled.
#[derive(Debug, Clone, Copy, PartialEq, Eq, Structural)]
pub enum KeyAction {
    Continue,
    Quit,
    /// Open image `index` in the system's default viewer.
    OpenImage(usize),
    /// Zoom in one step.
    ZoomIn,
    /// Zoom out one step.
    ZoomOut,
    /// Zoom to fit.
    FitImage,
}

/// Rows that a page move covers in a terminal `term_height` rows high.
pub open spec fn page_rows(term_height: u16) -> int {
    if term_height >= 3 {
        term_height - 2
    } else {
        1
    }
}

/// `b` is `a` after the sidebar cursor was put on position `target`,
/// followed, when it moved, by the change of the current image.
pub open spec fn sidebar_moved(a: ViewerCore, b: ViewerCore, target: int, debounce_ms: u64, now_ms: u64) -> bool {
    let moved = b.sidebar_tree.cursor() != a.sidebar_tree.cursor();
    let base = a.with_tree(b.sidebar_tree);
    &&& cursor_set(a.sidebar_tree, b.sidebar_tree, target, moved)
    &&& b == if moved {
        base.after_cursor_change(debounce_ms, now_ms)
    } else {
        base
    }
}

/// `b` is `a` with image `index` made current: the sidebar follows it, the
/// direction is recorded and a redraw is scheduled.
pub open spec fn index_stepped(
    a: ViewerCore,
    b: ViewerCore,
    index: int,
    direction: NavDirection,
    debounce_ms: u64,
    now_ms: u64,
) -> bool {
    &&& 0 <= index <= usize::MAX
    &&& tree_synced_for(a.sidebar_tree, b.sidebar_tree, a.image_files@, index)
    &&& b == (ViewerCore { current_index: index as usize, last_nav_direction: direction, ..a }).with_tree(
        b.sidebar_tree,
    ).with_redraw_scheduled(debounce_ms, now_ms)
}

/// `b` is `a` after a move through the list to `index`: nothing happens
/// when it is the current image already.
pub open spec fn list_moved(
    a: ViewerCore,
    b: ViewerCore,
    index: int,
    direction: NavDirection,
    debounce_ms: u64,
    now_ms: u64,
) -> bool {
    if index == a.current_index {
        b == a
    } else {
        index_stepped(a, b, index, direction, debounce_ms, now_ms)
    }
}

/// `b` is `a` after a toggle, collapse or expansion of a directory (which
/// `changed` tells): the header is refreshed when it took place.
pub open spec fn dir_changed(a: ViewerCore, b: ViewerCore, changed: bool) -> bool {
    b == (ViewerCore {
        redraw_mode: if changed {
            RedrawMode::HeaderRefresh
        } else {
            a.redraw_mode
        },
        ..a
    }).with_tree(b.sidebar_tree)
}

/// Keys that quit, open the image or change the layout.
pub open spec fn is_layout_key(key: KeyInput) -> bool {
    let c = key.code;
    ||| c == KeyCode::Char('q') || c == KeyCode::Esc
    ||| c == KeyCode::Char('o') || c == KeyCode::Char('O')
    ||| (c == KeyCode::Char('s') || c == KeyCode::Char('S')) && key.alt
    ||| (c == KeyCode::Char('d') || c == KeyCode::Char('D')) && key.alt
    ||| (c == KeyCode::Char('f') || c == KeyCode::Char('F')) && key.alt
    ||| c == KeyCode::Char('r') || c == KeyCode::Char('R') || c == KeyCode::Tab
}

/// Keys that move through the sidebar or the list.
pub open spec fn is_nav_key(key: KeyInput, sidebar_visible: bool) -> bool {
    let c = key.code;
    ||| (c == KeyCode::Char('j') || c == KeyCode::Down || c == KeyCode::Char('k') || c == KeyCode::Up) && sidebar_visible
    ||| (c == KeyCode::Char('b') || c == KeyCode::Char('f')) && key.control
    ||| c == KeyCode::Char('g') || c == KeyCode::Char('G')
    ||| c == KeyCode::Enter && sidebar_visible
    ||| c == KeyCode::Char('h') || c == KeyCode::Left || c == KeyCode::Char('l') || c == KeyCode::Right
}

/// What a layout key does: `q`/Esc quit; `o` opens the current image;
/// Alt+`s`/`d`/`f` toggle the sidebar, status bar and header; `r`
/// refreshes the image and `R` the screen; Tab toggles the overlay.
pub open spec fn layout_step(a: ViewerCore, b: ViewerCore, key: KeyInput, r: KeyAction) -> bool {
    let c = key.code;
    if c == KeyCode::Char('q') || c == KeyCode::Esc {
        r == KeyAction::Quit && b == a
    } else if c == KeyCode::Char('o') || c == KeyCode::Char('O') {
        r == KeyAction::OpenImage(a.current_index) && b == a
    } else if (c == KeyCode::Char('s') || c == KeyCode::Char('S')) && key.alt {
        r == KeyAction::Continue && b == (ViewerCore { sidebar_visible: !a.sidebar_visible, ..a }).with_cleared(
            RedrawMode::FullRefresh,
        )
    } else if (c == KeyCode::Char('d') || c == KeyCode::Char('D')) && key.alt {
        r == KeyAction::Continue && b == (ViewerCore { statusbar_visible: !a.statusbar_visible, ..a }).with_cleared(
            RedrawMode::FullRefresh,
        )
    } else if (c == KeyCode::Char('f') || c == KeyCode::Char('F')) && key.alt {
        r == KeyAction::Continue && b == (ViewerCore { header_visible: !a.header_visible, ..a }).with_cleared(
            RedrawMode::FullRefresh,
        )
    } else if c == KeyCode::Char('r') {
        r == KeyAction::Continue && b == a.with_cleared(RedrawMode::ImageRefresh)
    } else if c == KeyCode::Char('R') {
        r == KeyAction::Continue && b == a.with_cleared(RedrawMode::FullRefresh)
    } else {
        r == KeyAction::Continue && b == (ViewerCore { overlay_visible: !a.overlay_visible, ..a }).with_cleared(
            RedrawMode::FullRefresh,
        )
    }
}

/// What a navigation key does: with the sidebar shown, `j`/`k` and the
/// arrows move its cursor, Enter toggles a directory and `h`/`l` collapse
/// and expand one; Ctrl+`b`/`f`, `g` and `G` move by a page or to either
/// end, in the sidebar or, hidden, in the list; `h`/`l` step through the
/// list, wrapping around.
pub open spec fn nav_step(a: ViewerCore, b: ViewerCore, key: KeyInput, debounce_ms: u64, now_ms: u64, term_height: u16) -> bool {
    let count = a.image_files@.len();
    let sv = a.sidebar_visible;
    let rows = page_rows(term_height);
    let t = a.sidebar_tree;
    let c = key.code;
    let cur = a.current_index as int;
    if (c == KeyCode::Char('j') || c == KeyCode::Down) && sv {
        sidebar_moved(a, b, clamp_cursor(t.cursor() + 1int, t.visible().len()), debounce_ms, now_ms)
    } else if (c == KeyCode::Char('k') || c == KeyCode::Up) && sv {
        sidebar_moved(a, b, clamp_cursor(t.cursor() - 1int, t.visible().len()), debounce_ms, now_ms)
    } else if c == KeyCode::Char('b') && key.control {
        if sv {
            sidebar_moved(a, b, clamp_cursor(t.cursor() + page_step(rows as usize, -1isize), t.visible().len()), debounce_ms, now_ms)
        } else {
            list_moved(a, b, if cur > rows { cur - rows } else { 0 }, NavDirection::Backward, debounce_ms, now_ms)
        }
    } else if c == KeyCode::Char('f') && key.control {
        if sv {
            sidebar_moved(a, b, clamp_cursor(t.cursor() + page_step(rows as usize, 1isize), t.visible().len()), debounce_ms, now_ms)
        } else {
            list_moved(a, b, if cur + rows < count - 1 { cur + rows } else { count - 1 }, NavDirection::Forward, debounce_ms, now_ms)
        }
    } else if c == KeyCode::Char('g') {
        if sv {
            sidebar_moved(a, b, 0, debounce_ms, now_ms)
        } else {
            list_moved(a, b, 0, NavDirection::Backward, debounce_ms, now_ms)
        }
    } else if c == KeyCode::Char('G') {
        if sv {
            sidebar_moved(a, b, t.visible().len() - 1, debounce_ms, now_ms)
        } else {
            list_moved(a, b, count - 1, NavDirection::Forward, debounce_ms, now_ms)
        }
    } else if c == KeyCode::Enter && sv {
        let toggled = cursor_dir_of(t);
        &&& dir_toggled(t, b.sidebar_tree, toggled)
        &&& if toggled {
            dir_changed(a, b, true)
        } else {
            b == a.with_tree(b.sidebar_tree).after_cursor_change(debounce_ms, now_ms)
        }
    } else if c == KeyCode::Char('h') || c == KeyCode::Left {
        if sv {
            let changed = cursor_dir_of(t) && t.expanded_flags()[t.cursor_node()->0 as int];
            dir_collapsed(t, b.sidebar_tree, changed) && dir_changed(a, b, changed)
        } else {
            index_stepped(a, b, if cur == 0 { count - 1 } else { cur - 1 }, NavDirection::Backward, debounce_ms, now_ms)
        }
    } else {
        if sv {
            let changed = cursor_dir_of(t) && !t.expanded_flags()[t.cursor_node()->0 as int];
            dir_expanded(t, b.sidebar_tree, changed) && dir_changed(a, b, changed)
        } else {
            index_stepped(a, b, if cur + 1 < count { cur + 1 } else { 0 }, NavDirection::Forward, debounce_ms, now_ms)
        }
    }
}

/// What the remaining keys do: `H`/`L`/`J`/`K` pan; `+`/`-`/`0` zoom in,
/// out and to fit; `m`, `n`, `s` sort by time, name and size, their
/// capitals sort descending; any other key does nothing.
pub open spec fn other_step(a: ViewerCore, b: ViewerCore, key: KeyInput, r: KeyAction) -> bool {
    let c = key.code;
    if c == KeyCode::Char('H') {
        r == KeyAction::Continue && b == a.panned(-2i16, 0i16)
    } else if c == KeyCode::Char('L') {
        r == KeyAction::Continue && b == a.panned(2i16, 0i16)
    } else if c == KeyCode::Char('J') {
        r == KeyAction::Continue && b == a.panned(0i16, 1i16)
    } else if c == KeyCode::Char('K') {
        r == KeyAction::Continue && b == a.panned(0i16, -1i16)
    } else if c == KeyCode::Char('+') {
        r == KeyAction::ZoomIn && b == a.with_cleared(RedrawMode::ImageRefresh)
    } else if c == KeyCode::Char('-') {
        r == KeyAction::ZoomOut && b == a.with_cleared(RedrawMode::ImageRefresh)
    } else if c == KeyCode::Char('0') {
        r == KeyAction::FitImage && b == (ViewerCore { pan_x: 0, pan_y: 0, ..a }).with_cleared(RedrawMode::ImageRefresh)
    } else if c == KeyCode::Char('m') {
        r == KeyAction::Continue && sorted_state(a, b, SortField::ModifiedTime, false)
    } else if c == KeyCode::Char('M') {
        r == KeyAction::Continue && sorted_state(a, b, SortField::ModifiedTime, true)
    } else if c == KeyCode::Char('n') {
        r == KeyAction::Continue && sorted_state(a, b, SortField::Natural, false)
    } else if c == KeyCode::Char('N') {
        r == KeyAction::Continue && sorted_state(a, b, SortField::Natural, true)
    } else if c == KeyCode::Char('s') {
        r == KeyAction::Continue && sorted_state(a, b, SortField::Size, false)
    } else if c == KeyCode::Char('S') {
        r == KeyAction::Continue && sorted_state(a, b, SortField::Size, true)
    } else {
        r == KeyAction::Continue && b == a
    }
}

/// What a key press does: nothing on an empty list; else what the
/// layout, navigation or other keys do, in that order of precedence.
pub open spec fn key_step(
    a: ViewerCore,
    b: ViewerCore,
    key: KeyInput,
    debounce_ms: u64,
    now_ms: u64,
    term_height: u16,
    r: KeyAction,
) -> bool {
    if a.image_files@.len() == 0 {
        r == KeyAction::Continue && b == a
    } else if is_layout_key(key) {
        layout_step(a, b, key, r)
    } else if is_nav_key(key, a.sidebar_visible) {
        r == KeyAction::Continue && nav_step(a, b, key, debounce_ms, now_ms, term_height)
    } else {
        other_step(a, b, key, r)
    }
}

/// Whether the sidebar cursor is on a directory.
pub open spec fn cursor_dir_of(t: SidebarTree) -> bool {
    t.cursor_node() matches Some(id) && t.node_seq()[id as int].is_dir
}


impl ViewerCore {
    /// Makes image `index` current and follows it in the sidebar.
    fn step_to_index(&mut self, index: usize, direction: NavDirection, debounce_ms: u64, now_ms: u64)
        requires
            old(self).wf(),
            now_ms + debounce_ms <= u64::MAX,
        ensures
            final(self).wf(),
            index_stepped(*old(self), *final(self), index as int, direction, debounce_ms, now_ms),
    {
        self.current_index = index;
        self.sync_sidebar_to_image(direction);
        self.schedule_redraw(debounce_ms, now_ms);
    }

    /// Moves through the list to image `index`, if it is not current.
    fn move_in_list(&mut self, index: usize, direction: NavDirection, debounce_ms: u64, now_ms: u64)
        requires
            old(self).wf(),
            now_ms + debounce_ms <= u64::MAX,
        ensures
            final(self).wf(),
            list_moved(*old(self), *final(self), index as int, direction, debounce_ms, now_ms),
    {
        if index != self.current_index {
            self.step_to_index(index, direction, debounce_ms, now_ms);
        }
    }

    /// Follows a move of the sidebar cursor, if it moved.
    fn follow_sidebar(&mut self, moved: bool, debounce_ms: u64, now_ms: u64)
        requires
            old(self).wf(),
            now_ms + debounce_ms <= u64::MAX,
        ensures
            final(self).wf(),
            *final(self) == if moved {
                old(self).after_cursor_change(debounce_ms, now_ms)
            } else {
                *old(self)
            },
    {
        if moved {
            self.apply_sidebar_cursor_change(debounce_ms, now_ms);
        }
    }

    /// Handles a layout key.
    fn layout_key(&mut self, key: KeyInput) -> (r: KeyAction)
        requires
            old(self).wf(),
            is_layout_key(key),
        ensures
            final(self).wf(),
            layout_step(*old(self), *final(self), key, r),
    {
        let c = key.code;
        if c == KeyCode::Char('q') || c == KeyCode::Esc {
            KeyAction::Quit
        } else if c == KeyCode::Char('o') || c == KeyCode::Char('O') {
            KeyAction::OpenImage(self.current_index)
        } else if (c == KeyCode::Char('s') || c == KeyCode::Char('S')) && key.alt {
            self.sidebar_visible = !self.sidebar_visible;
            self.clear_and_full_refresh();
            KeyAction::Continue
        } else if (c == KeyCode::Char('d') || c == KeyCode::Char('D')) && key.alt {
            self.statusbar_visible = !self.statusbar_visible;
            self.clear_and_full_refresh();
            KeyAction::Continue
        } else if (c == KeyCode::Char('f') || c == KeyCode::Char('F')) && key.alt {
            self.header_visible = !self.header_visible;
            self.clear_and_full_refresh();
            KeyAction::Continue
        } else if c == KeyCode::Char('r') {
            self.clear_and_image_refresh();
            KeyAction::Continue
        } else if c == KeyCode::Char('R') {
            self.clear_and_full_refresh();
            KeyAction::Continue
        } else {
            self.overlay_visible = !self.overlay_visible;
            self.clear_and_full_refresh();
            KeyAction::Continue
        }
    }

    /// Moves the sidebar cursor for a navigation key.
    #[verifier::spinoff_prover]
    fn nav_sidebar_move(&mut self, key: KeyInput, debounce_ms: u64, now_ms: u64, term_height: u16)
        requires
            old(self).wf(),
            old(self).image_files@.len() > 0,
            old(self).sidebar_visible,
            now_ms + debounce_ms <= u64::MAX,
            is_nav_key(key, true),
            !(key.code == KeyCode::Enter || key.code == KeyCode::Char('h') || key.code == KeyCode::Left
                || key.code == KeyCode::Char('l') || key.code == KeyCode::Right),
        ensures
            final(self).wf(),
            nav_step(*old(self), *final(self), key, debounce_ms, now_ms, term_height),
    {
        let rows: usize = if term_height >= 3 {
            (term_height - 2) as usize
        } else {
            1
        };
        let c = key.code;
        let moved = if c == KeyCode::Char('j') || c == KeyCode::Down {
            self.sidebar_tree.move_cursor(1)
        } else if c == KeyCode::Char('k') || c == KeyCode::Up {
            self.sidebar_tree.move_cursor(-1)
        } else if c == KeyCode::Char('b') && key.control {
            self.sidebar_tree.move_cursor_page(-1, rows)
        } else if c == KeyCode::Char('f') && key.control {
            self.sidebar_tree.move_cursor_page(1, rows)
        } else if c == KeyCode::Char('g') {
            self.sidebar_tree.move_to_start()
        } else {
            self.sidebar_tree.move_to_end()
        };
        self.follow_sidebar(moved, debounce_ms, now_ms);
    }

    /// Toggles, collapses or expands the directory under the sidebar
    /// cursor for a navigation key.
    #[verifier::spinoff_prover]
    fn nav_sidebar_dir(&mut self, key: KeyInput, debounce_ms: u64, now_ms: u64, term_height: u16)
        requires
            old(self).wf(),
            old(self).image_files@.len() > 0,
            old(self).sidebar_visible,
            now_ms + debounce_ms <= u64::MAX,
            !is_layout_key(key),
            is_nav_key(key, true),
            key.code == KeyCode::Enter || key.code == KeyCode::Char('h') || key.code == KeyCode::Left
                || key.code == KeyCode::Char('l') || key.code == KeyCode::Right,
            !((key.code == KeyCode::Char('b') || key.code == KeyCode::Char('f')) && key.control),
        ensures
            final(self).wf(),
            nav_step(*old(self), *final(self), key, debounce_ms, now_ms, term_height),
    {
        let c = key.code;
        if c == KeyCode::Enter {
            if self.sidebar_tree.toggle_current_dir() {
                self.redraw_mode = RedrawMode::HeaderRefresh;
            } else {
                self.apply_sidebar_cursor_change(debounce_ms, now_ms);
            }
        } else if c == KeyCode::Char('h') || c == KeyCode::Left {
            if self.sidebar_tree.collapse_current_dir() {
                self.redraw_mode = RedrawMode::HeaderRefresh;
            }
        } else {
            if self.sidebar_tree.expand_current_dir() {
                self.redraw_mode = RedrawMode::HeaderRefresh;
            }
        }
    }

    /// Moves through the list for a navigation key, the sidebar hidden.
    #[verifier::spinoff_prover]
    fn nav_list(&mut self, key: KeyInput, debounce_ms: u64, now_ms: u64, term_height: u16)
        requires
            old(self).wf(),
            old(self).image_files@.len() > 0,
            !old(self).sidebar_visible,
            now_ms + debounce_ms <= u64::MAX,
            !is_layout_key(key),
            is_nav_key(key, false),
        ensures
            final(self).wf(),
            nav_step(*old(self), *final(self), key, debounce_ms, now_ms, term_height),
    {
        let count = self.image_files.len();
        let rows: usize = if term_height >= 3 {
            (term_height - 2) as usize
        } else {
            1
        };
        let c = key.code;
        if c == KeyCode::Char('b') && key.control {
            let target = if self.current_index > rows {
                self.current_index - rows
            } else {
                0
            };
            self.move_in_list(target, NavDirection::Backward, debounce_ms, now_ms);
        } else if c == KeyCode::Char('f') && key.control {
            let last = count - 1;
            let target = if self.current_index < last && rows < last - self.current_index {
                self.current_index + rows
            } else {
                last
            };
            self.move_in_list(target, NavDirection::Forward, debounce_ms, now_ms);
        } else if c == KeyCode::Char('g') {
            self.move_in_list(0, NavDirection::Backward, debounce_ms, now_ms);
        } else if c == KeyCode::Char('G') {
            self.move_in_list(count - 1, NavDirection::Forward, debounce_ms, now_ms);
        } else if c == KeyCode::Char('h') || c == KeyCode::Left {
            let target = if self.current_index == 0 {
                count - 1
            } else {
                self.current_index - 1
            };
            self.last_nav_direction = NavDirection::Backward;
            self.step_to_index(target, NavDirection::Backward, debounce_ms, now_ms);
        } else {
            let target = if self.current_index < count - 1 {
                self.current_index + 1
            } else {
                0
            };
            self.last_nav_direction = NavDirection::Forward;
            self.step_to_index(target, NavDirection::Forward, debounce_ms, now_ms);
        }
    }

    /// Handles a navigation key.
    fn nav_key(&mut self, key: KeyInput, debounce_ms: u64, now_ms: u64, term_height: u16)
        requires
            old(self).wf(),
            old(self).image_files@.len() > 0,
            now_ms + debounce_ms <= u64::MAX,
            !is_layout_key(key),
            is_nav_key(key, old(self).sidebar_visible),
        ensures
            final(self).wf(),
            nav_step(*old(self), *final(self), key, debounce_ms, now_ms, term_height),
    {
        let c = key.code;
        if !self.sidebar_visible {
            self.nav_list(key, debounce_ms, now_ms, term_height);
        } else if (c == KeyCode::Char('b') || c == KeyCode::Char('f')) && key.control {
            self.nav_sidebar_move(key, debounce_ms, now_ms, term_height);
        } else if c == KeyCode::Enter || c == KeyCode::Char('h') || c == KeyCode::Left || c == KeyCode::Char('l')
            || c == KeyCode::Right {
            self.nav_sidebar_dir(key, debounce_ms, now_ms, term_height);
        } else {
            self.nav_sidebar_move(key, debounce_ms, now_ms, term_height);
        }
    }

    /// Handles the remaining keys.
    fn other_key(&mut self, key: KeyInput) -> (r: KeyAction)
        requires
            old(self).wf(),
            old(self).image_files@.len() > 0,
        ensures
            final(self).wf(),
            other_step(*old(self), *final(self), key, r),
    {
        let c = key.code;
        if c == KeyCode::Char('H') {
            self.pan_image(-2, 0);
            KeyAction::Continue
        } else if c == KeyCode::Char('L') {
            self.pan_image(2, 0);
            KeyAction::Continue
        } else if c == KeyCode::Char('J') {
            self.pan_image(0, 1);
            KeyAction::Continue
        } else if c == KeyCode::Char('K') {
            self.pan_image(0, -1);
            KeyAction::Continue
        } else if c == KeyCode::Char('+') {
            self.clear_and_image_refresh();
            KeyAction::ZoomIn
        } else if c == KeyCode::Char('-') {
            self.clear_and_image_refresh();
            KeyAction::ZoomOut
        } else if c == KeyCode::Char('0') {
            self.reset_pan();
            self.clear_and_image_refresh();
            KeyAction::FitImage
        } else if c == KeyCode::Char('m') {
            self.apply_sort(SortField::ModifiedTime, false);
            KeyAction::Continue
        } else if c == KeyCode::Char('M') {
            self.apply_sort(SortField::ModifiedTime, true);
            KeyAction::Continue
        } else if c == KeyCode::Char('n') {
            self.apply_sort(SortField::Natural, false);
            KeyAction::Continue
        } else if c == KeyCode::Char('N') {
            self.apply_sort(SortField::Natural, true);
            KeyAction::Continue
        } else if c == KeyCode::Char('s') {
            self.apply_sort(SortField::Size, false);
            KeyAction::Continue
        } else if c == KeyCode::Char('S') {
            self.apply_sort(SortField::Size, true);
            KeyAction::Continue
        } else {
            KeyAction::Continue
        }
    }

    /// Handles a key press; see `key_step`. Returns what the caller has to
    /// do next (quit, open the image, zoom).
    pub fn process_key(&mut self, key: KeyInput, debounce_ms: u64, now_ms: u64, term_height: u16) -> (r: KeyAction)
        requires
            old(self).wf(),
            now_ms + debounce_ms <= u64::MAX,
        ensures
            final(self).wf(),
            key_step(*old(self), *final(self), key, debounce_ms, now_ms, term_height, r),
    {
        if self.image_files.len() == 0 {
            return KeyAction::Continue;
        }
        if is_layout_key_exec(key) {
            self.layout_key(key)
        } else if is_nav_key_exec(key, self.sidebar_visible) {
            self.nav_key(key, debounce_ms, now_ms, term_height);
            KeyAction::Continue
        } else {
            self.other_key(key)
        }
    }
}

fn is_layout_key_exec(key: KeyInput) -> (r: bool)
    ensures
        r == is_layout_key(key),
{
    let c = key.code;
    (c == KeyCode::Char('q') || c == KeyCode::Esc) || (c == KeyCode::Char('o') || c == KeyCode::Char('O'))
        || ((c == KeyCode::Char('s') || c == KeyCode::Char('S')) && key.alt)
        || ((c == KeyCode::Char('d') || c == KeyCode::Char('D')) && key.alt)
        || ((c == KeyCode::Char('f') || c == KeyCode::Char('F')) && key.alt)
        || (c == KeyCode::Char('r') || c == KeyCode::Char('R') || c == KeyCode::Tab)
}

fn is_nav_key_exec(key: KeyInput, sidebar_visible: bool) -> (r: bool)
    ensures
        r == is_nav_key(key, sidebar_visible),
{
    let c = key.code;
    ((c == KeyCode::Char('j') || c == KeyCode::Down || c == KeyCode::Char('k') || c == KeyCode::Up) && sidebar_visible)
        || ((c == KeyCode::Char('b') || c == KeyCode::Char('f')) && key.control)
        || (c == KeyCode::Char('g') || c == KeyCode::Char('G'))
        || (c == KeyCode::Enter && sidebar_visible)
        || (c == KeyCode::Char('h') || c == KeyCode::Left || c == KeyCode::Char('l') || c == KeyCode::Right)
}


/// The kind of a mouse event, as the viewer tells them apart.
#[derive(Debug, Clone, Copy, PartialEq, Eq, Structural)]
pub enum MouseKind {
    ScrollUp,
    ScrollDown,
    LeftDown,
    Other,
}

/// A mouse event at a cell.
#[derive(Debug, Clone, Copy, PartialEq, Eq, Structural)]
pub struct MouseInput {
    pub kind: MouseKind,
    pub column: u16,
    pub row: u16,
}

/// Whether cell `(column, row)` lies on the image last drawn at `rect`
/// (its right and bottom edges computed with saturation).
pub open spec fn on_image(rect: Option<(u16, u16, u32, u32)>, column: u16, row: u16) -> bool {
    match rect {
        Some((x, y, w, h)) => {
            let x_end = if x + w > u32::MAX {
                u32::MAX as int
            } else {
                x + w
            };
            let y_end = if y + h > u32::MAX {
                u32::MAX as int
            } else {
                y + h
            };
            x <= column < x_end && y <= row < y_end
        },
        None => false,
    }
}

/// Whether a mouse event lies on the image last drawn.
pub fn is_mouse_on_image(mouse: MouseInput, rect: Option<(u16, u16, u32, u32)>) -> (r: bool)
    ensures
        r == on_image(rect, mouse.column, mouse.row),
{
    match rect {
        Some((x, y, w, h)) => {
            let x_end: u32 = if w > u32::MAX - x as u32 {
                u32::MAX
            } else {
                x as u32 + w
            };
            let y_end: u32 = if h > u32::MAX - y as u32 {
                u32::MAX
            } else {
                y as u32 + h
            };
            let mx = mouse.column as u32;
            let my = mouse.row as u32;
            mx >= x as u32 && mx < x_end && my >= y as u32 && my < y_end
        },
        None => false,
    }
}

/// What a mouse event does: a scroll over the image zooms; with the
/// sidebar shown, a scroll over it moves its cursor, and a left click puts
/// the cursor on the clicked row, toggling a directory there or else
/// making the clicked file current; anything else does nothing.
pub open spec fn mouse_step(
    a: ViewerCore,
    b: ViewerCore,
    m: MouseInput,
    debounce_ms: u64,
    now_ms: u64,
    sidebar_width: u16,
    term_height: u16,
    r: KeyAction,
) -> bool {
    let t = a.sidebar_tree;
    let over = on_image(a.last_image_rect, m.column, m.row);
    if m.kind == MouseKind::ScrollUp && over {
        r == KeyAction::ZoomIn && b == a.with_cleared(RedrawMode::ImageRefresh)
    } else if m.kind == MouseKind::ScrollDown && over {
        r == KeyAction::ZoomOut && b == a.with_cleared(RedrawMode::ImageRefresh)
    } else if !a.sidebar_visible || m.column >= sidebar_width {
        r == KeyAction::Continue && b == a
    } else if m.kind == MouseKind::ScrollUp {
        r == KeyAction::Continue && sidebar_moved(a, b, clamp_cursor(t.cursor() - 1int, t.visible().len()), debounce_ms, now_ms)
    } else if m.kind == MouseKind::ScrollDown {
        r == KeyAction::Continue && sidebar_moved(a, b, clamp_cursor(t.cursor() + 1int, t.visible().len()), debounce_ms, now_ms)
    } else if m.kind == MouseKind::LeftDown {
        r == KeyAction::Continue && exists|mid: SidebarTree| #[trigger] clicked(t, mid, m.row, term_height) && {
            let moved = mid.cursor() != t.cursor();
            if !moved {
                b == a.with_tree(mid)
            } else {
                let toggled = cursor_dir_of(mid);
                &&& dir_toggled(mid, b.sidebar_tree, toggled)
                &&& if toggled {
                    dir_changed(a, b, true)
                } else {
                    b == a.with_tree(b.sidebar_tree).after_cursor_change(debounce_ms, now_ms)
                }
            }
        }
    } else {
        r == KeyAction::Continue && b == a
    }
}

/// `b` is `a` with the cursor put on the entry shown at screen row `row`.
pub open spec fn clicked(a: SidebarTree, b: SidebarTree, row: u16, term_height: u16) -> bool {
    cursor_set(a, b, crate::filetree::screen_row_target(a, row, term_height), b.cursor() != a.cursor())
}

impl ViewerCore {
    /// Handles a mouse event; see `mouse_step`.
    #[verifier::spinoff_prover]
    pub fn process_mouse(
        &mut self,
        mouse: MouseInput,
        debounce_ms: u64,
        now_ms: u64,
        sidebar_width: u16,
        term_height: u16,
    ) -> (r: KeyAction)
        requires
            old(self).wf(),
            now_ms + debounce_ms <= u64::MAX,
        ensures
            final(self).wf(),
            mouse_step(*old(self), *final(self), mouse, debounce_ms, now_ms, sidebar_width, term_height, r),
    {
        let over = is_mouse_on_image(mouse, self.last_image_rect);
        if mouse.kind == MouseKind::ScrollUp && over {
            self.clear_and_image_refresh();
            return KeyAction::ZoomIn;
        }
        if mouse.kind == MouseKind::ScrollDown && over {
            self.clear_and_image_refresh();
            return KeyAction::ZoomOut;
        }
        if !self.sidebar_visible || mouse.column >= sidebar_width {
            return KeyAction::Continue;
        }
        if mouse.kind == MouseKind::ScrollUp {
            let moved = self.sidebar_tree.move_cursor(-1);
            self.follow_sidebar(moved, debounce_ms, now_ms);
            return KeyAction::Continue;
        }
        if mouse.kind == MouseKind::ScrollDown {
            let moved = self.sidebar_tree.move_cursor(1);
            self.follow_sidebar(moved, debounce_ms, now_ms);
            return KeyAction::Continue;
        }
        if mouse.kind != MouseKind::LeftDown {
            return KeyAction::Continue;
        }
        let moved = self.sidebar_tree.set_cursor_by_screen_row(mouse.row, term_height);
        let ghost mid = self.sidebar_tree;
        assert(clicked(old(self).sidebar_tree, mid, mouse.row, term_height));
        if !moved {
            return KeyAction::Continue;
        }
        if self.sidebar_tree.toggle_current_dir() {
            self.redraw_mode = RedrawMode::HeaderRefresh;
            return KeyAction::Continue;
        }
        self.apply_sidebar_cursor_change(debounce_ms, now_ms);
        KeyAction::Continue
    }
}

/// An input event, as the viewer tells them apart.
#[derive(Debug, Clone, Copy, PartialEq, Eq, Structural)]
pub enum InputEvent {
    /// A key press (releases and repeats are `Other`).
    Key(KeyInput),
    Mouse(MouseInput),
    /// The terminal was resized to the given width and height.
    Resize(u16, u16),
    Other,
}

/// What handling an event came to: whether to quit, whether the current
/// image changed, and what else the caller has to do.
#[derive(Debug, Clone, Copy, PartialEq, Eq, Structural)]
pub struct EventOutcome {
    pub quit: bool,
    pub index_changed: bool,
    pub action: KeyAction,
}

impl ViewerCore {
    /// Handles one input event: keys and mouse events as above (the
    /// sidebar is at least one column wide), a resize records the new size
    /// and asks for a layout refresh.
    pub fn handle_event(&mut self, event: InputEvent, viewport: &mut Viewport, debounce_ms: u64, now_ms: u64) -> (r: EventOutcome)
        requires
            old(self).wf(),
            now_ms + debounce_ms <= u64::MAX,
        ensures
            final(self).wf(),
            r.index_changed == (final(self).current_index != old(self).current_index),
            r.quit == (r.action == KeyAction::Quit),
            match event {
                InputEvent::Key(k) => *final(viewport) == *old(viewport) && key_step(
                    *old(self),
                    *final(self),
                    k,
                    debounce_ms,
                    now_ms,
                    old(viewport).height,
                    r.action,
                ),
                InputEvent::Mouse(m) => *final(viewport) == *old(viewport) && mouse_step(
                    *old(self),
                    *final(self),
                    m,
                    debounce_ms,
                    now_ms,
                    if old(self).sidebar_size > 1 {
                        old(self).sidebar_size
                    } else {
                        1
                    },
                    old(viewport).height,
                    r.action,
                ),
                InputEvent::Resize(w, h) => *final(viewport) == (Viewport { width: w, height: h })
                    && *final(self) == (ViewerCore { redraw_mode: RedrawMode::LayoutRefresh, ..*old(self) })
                    && r.action == KeyAction::Continue,
                InputEvent::Other => *final(viewport) == *old(viewport) && *final(self) == *old(self)
                    && r.action == KeyAction::Continue,
            },
    {
        let previous = self.current_index;
        let action = match event {
            InputEvent::Key(k) => self.process_key(k, debounce_ms, now_ms, viewport.height),
            InputEvent::Mouse(m) => {
                let width = if self.sidebar_size > 1 {
                    self.sidebar_size
                } else {
                    1
                };
                self.process_mouse(m, debounce_ms, now_ms, width, viewport.height)
            },
            InputEvent::Resize(w, h) => {
                viewport.width = w;
                viewport.height = h;
                self.redraw_mode = RedrawMode::LayoutRefresh;
                KeyAction::Continue
            },
            InputEvent::Other => KeyAction::Continue,
        };
        EventOutcome { quit: action == KeyAction::Quit, index_changed: self.current_index != previous, action }
    }
}

/// The mouse wheel zooms the image when turned over it (up zooms in, down
/// zooms out) and otherwise, over the shown sidebar, moves its cursor one
/// entry up or down, never past either end; anywhere else it does nothing.
pub proof fn lemma_mouse_wheel(
    a: ViewerCore,
    b: ViewerCore,
    m: MouseInput,
    debounce_ms: u64,
    now_ms: u64,
    sidebar_width: u16,
    term_height: u16,
    r: KeyAction,
)
    requires
        a.wf(),
        m.kind == MouseKind::ScrollUp || m.kind == MouseKind::ScrollDown,
        mouse_step(a, b, m, debounce_ms, now_ms, sidebar_width, term_height, r),
    ensures
        ({
            let over = on_image(a.last_image_rect, m.column, m.row);
            let in_sidebar = a.sidebar_visible && m.column < sidebar_width;
            let len = a.sidebar_tree.visible().len() as int;
            let cur = a.sidebar_tree.cursor() as int;
            &&& over ==> b.current_index == a.current_index && b.image_files == a.image_files && r == (if m.kind
                == MouseKind::ScrollUp {
                KeyAction::ZoomIn
            } else {
                KeyAction::ZoomOut
            })
            &&& !over && in_sidebar && len > 0 ==> {
                &&& r == KeyAction::Continue
                &&& b.sidebar_tree.visible() == a.sidebar_tree.visible()
                &&& m.kind == MouseKind::ScrollUp ==> b.sidebar_tree.cursor() == (if cur >= 1 {
                    cur - 1
                } else {
                    0
                })
                &&& m.kind == MouseKind::ScrollDown ==> b.sidebar_tree.cursor() == (if cur + 1 < len {
                    cur + 1
                } else {
                    len - 1
                })
            }
            &&& !over && !in_sidebar ==> r == KeyAction::Continue && b == a
        }),
{
}

/// With the sidebar hidden, the keys move through the image list as
/// follows: Ctrl+`f` forward by one page of `max(term_height - 2, 1)`
/// images but not past the last, Ctrl+`b` back by one page but not before
/// the first, `g` to the first image, `G` to the last, `l` to the next and
/// `h` to the previous one, both wrapping around the list.
pub proof fn lemma_list_moves(
    a: ViewerCore,
    b: ViewerCore,
    key: KeyInput,
    debounce_ms: u64,
    now_ms: u64,
    term_height: u16,
    r: KeyAction,
)
    requires
        a.current_index < a.image_files@.len(),
        !a.sidebar_visible,
        !key.alt,
        key_step(a, b, key, debounce_ms, now_ms, term_height, r),
    ensures
        ({
            let n = a.image_files@.len() as int;
            let cur = a.current_index as int;
            let page: int = if term_height >= 3 {
                term_height - 2
            } else {
                1
            };
            &&& key.control && key.code == KeyCode::Char('f') ==> {
                &&& b.current_index <= n - 1
                &&& b.current_index <= cur + page
                &&& cur + page <= n - 1 ==> b.current_index == cur + page
                &&& cur + page > n - 1 ==> b.current_index == n - 1
            }
            &&& key.control && key.code == KeyCode::Char('b') ==> {
                &&& cur - page <= b.current_index
                &&& cur >= page ==> b.current_index == cur - page
                &&& cur < page ==> b.current_index == 0
            }
            &&& key.code == KeyCode::Char('g') ==> b.current_index == 0
            &&& key.code == KeyCode::Char('G') ==> b.current_index == n - 1
            &&& (key.code == KeyCode::Char('l') || key.code == KeyCode::Right) ==> b.current_index == (cur + 1) % n
            &&& (key.code == KeyCode::Char('h') || key.code == KeyCode::Left) ==> b.current_index == (cur + n - 1) % n
            &&& (key.code == KeyCode::Char('f') || key.code == KeyCode::Char('b') || key.code == KeyCode::Char('g')
                || key.code == KeyCode::Char('G') || key.code == KeyCode::Char('l') || key.code == KeyCode::Right
                || key.code == KeyCode::Char('h') || key.code == KeyCode::Left) && (key.control || (key.code
                != KeyCode::Char('f') && key.code != KeyCode::Char('b'))) ==> r == KeyAction::Continue
                && b.image_files == a.image_files
        }),
{
    let n = a.image_files@.len() as int;
    let cur = a.current_index as int;
    if key.code == KeyCode::Char('l') || key.code == KeyCode::Right {
        if cur + 1 < n {
            assert((cur + 1) % n == cur + 1) by (nonlinear_arith)
                requires
                    0 <= cur + 1 < n,
            ;
        } else {
            assert((cur + 1) % n == 0) by (nonlinear_arith)
                requires
                    cur + 1 == n,
                    n > 0,
            ;
        }
    }
    if key.code == KeyCode::Char('h') || key.code == KeyCode::Left {
        if cur == 0 {
            assert((cur + n - 1) % n == n - 1) by (nonlinear_arith)
                requires
                    cur == 0,
                    n > 0,
            ;
        } else {
            assert((cur + n - 1) % n == cur - 1) by (nonlinear_arith)
                requires
                    1 <= cur < n,
            ;
        }
    }
}

/// With the sidebar shown, the keys move its cursor over the visible
/// entries as follows: `j`/Down one entry down and `k`/Up one up, Ctrl+`f`
/// one page of `max(term_height - 2, 1)` entries down and Ctrl+`b` one page
/// up, never past either end, `g` to the first entry and `G` to the last;
/// the list of entries itself is left as it was.
pub proof fn lemma_sidebar_moves(
    a: ViewerCore,
    b: ViewerCore,
    key: KeyInput,
    debounce_ms: u64,
    now_ms: u64,
    term_height: u16,
    r: KeyAction,
)
    requires
        a.wf(),
        a.image_files@.len() > 0,
        a.sidebar_visible,
        a.sidebar_tree.visible().len() > 0,
        !key.alt,
        key_step(a, b, key, debounce_ms, now_ms, term_height, r),
    ensures
        ({
            let len = a.sidebar_tree.visible().len() as int;
            let cur = a.sidebar_tree.cursor() as int;
            let page: int = if term_height >= 3 {
                term_height - 2
            } else {
                1
            };
            let moving = key.code == KeyCode::Char('j') || key.code == KeyCode::Down || key.code == KeyCode::Char('k')
                || key.code == KeyCode::Up || key.code == KeyCode::Char('g') || key.code == KeyCode::Char('G') || (
            key.control && (key.code == KeyCode::Char('f') || key.code == KeyCode::Char('b')));
            &&& moving ==> r == KeyAction::Continue && b.sidebar_tree.visible() == a.sidebar_tree.visible()
            &&& (key.code == KeyCode::Char('j') || key.code == KeyCode::Down) ==> b.sidebar_tree.cursor() == (if cur
                + 1 < len {
                cur + 1
            } else {
                len - 1
            })
            &&& (key.code == KeyCode::Char('k') || key.code == KeyCode::Up) ==> b.sidebar_tree.cursor() == (if cur
                >= 1 {
                cur - 1
            } else {
                0
            })
            &&& key.control && key.code == KeyCode::Char('f') ==> {
                &&& cur + page <= len - 1 ==> b.sidebar_tree.cursor() == cur + page
                &&& cur + page > len - 1 ==> b.sidebar_tree.cursor() == len - 1
            }
            &&& key.control && key.code == KeyCode::Char('b') ==> {
                &&& cur >= page ==> b.sidebar_tree.cursor() == cur - page
                &&& cur < page ==> b.sidebar_tree.cursor() == 0
            }
            &&& key.code == KeyCode::Char('g') ==> b.sidebar_tree.cursor() == 0
            &&& key.code == KeyCode::Char('G') ==> b.sidebar_tree.cursor() == len - 1
        }),
{
    let rows = page_rows(term_height);
    assert(0 < rows <= usize::MAX);
    assert(isize_wrap(rows as usize) == rows);
}

/// With the sidebar hidden, stepping to the next image and then back to
/// the previous one returns to the image one started from, whatever the
/// debounce, the time and the terminal height of either key press.
pub proof fn lemma_next_then_previous(
    a: ViewerCore,
    b: ViewerCore,
    c: ViewerCore,
    next_key: KeyInput,
    prev_key: KeyInput,
    debounce_ms: u64,
    now_ms: u64,
    later_debounce_ms: u64,
    later_ms: u64,
    term_height: u16,
    later_term_height: u16,
    r1: KeyAction,
    r2: KeyAction,
)
    requires
        a.current_index < a.image_files@.len(),
        !a.sidebar_visible,
        next_key.code == KeyCode::Char('l') || next_key.code == KeyCode::Right,
        prev_key.code == KeyCode::Char('h') || prev_key.code == KeyCode::Left,
        key_step(a, b, next_key, debounce_ms, now_ms, term_height, r1),
        key_step(b, c, prev_key, later_debounce_ms, later_ms, later_term_height, r2),
    ensures
        c.current_index == a.current_index,
        c.image_files == a.image_files,
        r1 == KeyAction::Continue && r2 == KeyAction::Continue,
{
    let n = a.image_files@.len();
    let cur = a.current_index as int;
    let next = if cur + 1 < n { cur + 1 } else { 0 };
    assert(b.current_index == next && b.image_files == a.image_files && !b.sidebar_visible);
    let back = if next == 0 { n - 1 } else { next - 1 };
    assert(c.current_index == back);
}

/// With the sidebar hidden, stepping to the previous image and then on to
/// the next one returns to the image one started from.
pub proof fn lemma_previous_then_next(
    a: ViewerCore,
    b: ViewerCore,
    c: ViewerCore,
    prev_key: KeyInput,
    next_key: KeyInput,
    debounce_ms: u64,
    now_ms: u64,
    later_debounce_ms: u64,
    later_ms: u64,
    term_height: u16,
    later_term_height: u16,
    r1: KeyAction,
    r2: KeyAction,
)
    requires
        a.current_index < a.image_files@.len(),
        !a.sidebar_visible,
        prev_key.code == KeyCode::Char('h') || prev_key.code == KeyCode::Left,
        next_key.code == KeyCode::Char('l') || next_key.code == KeyCode::Right,
        key_step(a, b, prev_key, debounce_ms, now_ms, term_height, r1),
        key_step(b, c, next_key, later_debounce_ms, later_ms, later_term_height, r2),
    ensures
        c.current_index == a.current_index,
        c.image_files == a.image_files,
        r1 == KeyAction::Continue && r2 == KeyAction::Continue,
{
    let n = a.image_files@.len();
    let cur = a.current_index as int;
    let prev = if cur == 0 { n - 1 } else { cur - 1 };
    assert(b.current_index == prev && b.image_files == a.image_files && !b.sidebar_visible);
    let forward = if prev + 1 < n { prev + 1 } else { 0 };
    assert(c.current_index == forward);
}

} // verus!
