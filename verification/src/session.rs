//! The decisions of the main loop: which preview requests go to the
//! worker and which of its answers count, when the loading notice shows,
//! what each redraw mode draws, when a debounced replacement fires and
//! which neighbours are read ahead. The loop itself (the terminal, the
//! worker thread, the clock) runs outside; it hands these functions plain
//! values and carries out what they decide.
use vstd::prelude::*;
use crate::viewer::{RedrawMode, NavDirection, ViewerCore};
use crate::config::TransportMode;

verus! {

/// How long a preview may take before the loading notice shows, in ms.
pub const LOADING_NOTICE_DELAY_MS: u64 = 100;

/// The longest nap while a debounced replacement waits, in ms.
pub const MAX_PENDING_NAP_MS: u64 = 5;

/// The state of preview requests and of reading ahead.
#[derive(Debug)]
pub struct PreviewState {
    /// How many neighbours to read ahead.
    pub prefetch_size: usize,
    /// Where, in which direction and how far the last read-ahead went.
    pub last_prefetch_state: Option<(usize, NavDirection, usize)>,
    /// The generation of the last request sent.
    pub preview_generation: u64,
    /// The request whose answer is awaited: image and generation.
    pub expected_preview_generation: Option<(usize, u64)>,
    /// When the last idle read-ahead ran, in ms.
    pub last_idle_prefetch_at: Option<u64>,
    /// When the awaited request was sent, in ms.
    pub pending_started_at: Option<u64>,
    /// Whether the loading notice is on screen for it.
    pub loading_rendered: bool,
}

/// What to do with an answer of the preview worker.
#[derive(Debug, Clone, Copy, PartialEq, Eq, Structural)]
pub enum ResponseAction {
    /// It answers a request that is no longer awaited.
    Ignore,
    /// Keep the prepared image and replace the shown one with it.
    UsePayload,
    /// Show the error message in place of the image.
    ShowError,
    /// It was awaited but is for another image: drop it.
    Drop,
}

/// What a pass of the loop draws for the pending redraw mode.
#[derive(Debug, Clone, Copy, PartialEq, Eq, Structural)]
pub enum RedrawPlan {
    Nothing,
    /// Header and sidebar only.
    HeaderOnly,
    /// The current image as it stands, with the given flags.
    Current { refresh_image: bool, full_refresh: bool },
    /// Request a fresh preview (forced); draw the pending screen when the
    /// request went out, else the current image; with the given flags.
    Refresh { full_refresh: bool },
    /// Draw the prepared image, if it is the one for the current image.
    Prepared,
}

/// What the loop does about a debounced replacement.
#[derive(Debug, Clone, Copy, PartialEq, Eq, Structural)]
pub enum PendingStep {
    /// None is pending.
    NotPending,
    /// It is due: request the preview now.
    Fire,
    /// It is not due: handle input, then sleep this many ms.
    Wait(u64),
}

/// What an answer of the worker for image `index` and generation
/// `generation` comes to while `current` is the current image: only the
/// awaited request counts; its answer is dropped when it is for another
/// image, shown when it carries an image (`ok`), and else reported.
pub open spec fn response_action_spec(
    p: PreviewState,
    index: usize,
    generation: u64,
    current: usize,
    ok: bool,
) -> ResponseAction {
    if p.expected_preview_generation != Some((index, generation)) {
        ResponseAction::Ignore
    } else if index != current {
        ResponseAction::Drop
    } else if ok {
        ResponseAction::UsePayload
    } else {
        ResponseAction::ShowError
    }
}

impl PreviewState {
    /// A fresh state that reads `prefetch_size` neighbours ahead.
    pub fn new(prefetch_size: usize) -> (r: Self)
        ensures
            r == (PreviewState {
                prefetch_size,
                last_prefetch_state: None,
                preview_generation: 0,
                expected_preview_generation: None,
                last_idle_prefetch_at: None,
                pending_started_at: None,
                loading_rendered: false,
            }),
    {
        PreviewState {
            prefetch_size,
            last_prefetch_state: None,
            preview_generation: 0,
            expected_preview_generation: None,
            last_idle_prefetch_at: None,
            pending_started_at: None,
            loading_rendered: false,
        }
    }

    /// Decides on a preview request for image `index` of a list of `count`
    /// at time `now_ms`: none when that image is awaited already (unless
    /// `force`) or does not exist; else the next generation, now awaited.
    pub fn begin_request(&mut self, index: usize, count: usize, force: bool, now_ms: u64) -> (r: Option<u64>)
        ensures
            ({
                let awaited = old(self).expected_preview_generation matches Some((i, _)) && i == index;
                if (awaited && !force) || index >= count {
                    r is None && *final(self) == *old(self)
                } else {
                    let g = if old(self).preview_generation == u64::MAX {
                        0
                    } else {
                        (old(self).preview_generation + 1) as u64
                    };
                    &&& r == Some(g)
                    &&& *final(self) == (PreviewState {
                        preview_generation: g,
                        expected_preview_generation: Some((index, g)),
                        pending_started_at: Some(now_ms),
                        loading_rendered: false,
                        ..*old(self)
                    })
                }
            }),
    {
        if let Some((i, _)) = self.expected_preview_generation {
            if i == index && !force {
                return None;
            }
        }
        if index >= count {
            return None;
        }
        let g = if self.preview_generation == u64::MAX {
            0
        } else {
            self.preview_generation + 1
        };
        self.preview_generation = g;
        self.expected_preview_generation = Some((index, g));
        self.pending_started_at = Some(now_ms);
        self.loading_rendered = false;
        Some(g)
    }

    /// The request could not be sent: nothing is awaited any more.
    pub fn request_failed(&mut self)
        ensures
            *final(self) == (PreviewState {
                expected_preview_generation: None,
                pending_started_at: None,
                ..*old(self)
            }),
    {
        self.expected_preview_generation = None;
        self.pending_started_at = None;
    }

    /// Takes an answer of the worker for image `index` and generation
    /// `generation` (`ok` when it carries an image) while `current` is the
    /// current image.
    pub fn accept_response(&mut self, index: usize, generation: u64, current: usize, ok: bool) -> (r: ResponseAction)
        ensures
            r == response_action_spec(*old(self), index, generation, current, ok),
            old(self).expected_preview_generation != Some((index, generation)) ==> *final(self) == *old(self),
            old(self).expected_preview_generation == Some((index, generation)) ==> *final(self) == (PreviewState {
                expected_preview_generation: None,
                pending_started_at: None,
                loading_rendered: false,
                ..*old(self)
            }),
    {
        if self.expected_preview_generation != Some((index, generation)) {
            return ResponseAction::Ignore;
        }
        self.expected_preview_generation = None;
        self.pending_started_at = None;
        self.loading_rendered = false;
        if index != current {
            ResponseAction::Drop
        } else if ok {
            ResponseAction::UsePayload
        } else {
            ResponseAction::ShowError
        }
    }

    /// Whether the loading notice is due at `now_ms`: a request is awaited,
    /// no prepared image waits, the notice is not shown yet, and the
    /// request went out at least the notice delay ago.
    pub fn loading_notice_due(&self, payload_waiting: bool, now_ms: u64) -> (r: bool)
        ensures
            r == (self.expected_preview_generation is Some && !payload_waiting && !self.loading_rendered
                && (self.pending_started_at matches Some(t) && now_ms >= t && now_ms - t >= LOADING_NOTICE_DELAY_MS)),
    {
        match self.pending_started_at {
            Some(t) => self.expected_preview_generation.is_some() && !payload_waiting && !self.loading_rendered
                && now_ms >= t && now_ms - t >= LOADING_NOTICE_DELAY_MS,
            None => false,
        }
    }
}

/// The plan for a redraw mode. The header refresh draws the whole screen
/// instead when the overlay is up and images do not go through files.
pub open spec fn redraw_plan_spec(mode: RedrawMode, overlay_visible: bool, transport: TransportMode) -> RedrawPlan {
    match mode {
        RedrawMode::Idle => RedrawPlan::Nothing,
        RedrawMode::HeaderRefresh => if overlay_visible && transport != TransportMode::File {
            RedrawPlan::Current { refresh_image: false, full_refresh: false }
        } else {
            RedrawPlan::HeaderOnly
        },
        RedrawMode::FullRefresh => RedrawPlan::Refresh { full_refresh: true },
        RedrawMode::LayoutRefresh => RedrawPlan::Refresh { full_refresh: true },
        RedrawMode::ImageRefresh => RedrawPlan::Refresh { full_refresh: false },
        RedrawMode::ImageReplace => RedrawPlan::Prepared,
    }
}

/// What to draw for the pending redraw mode.
pub fn redraw_plan(mode: RedrawMode, overlay_visible: bool, transport: TransportMode) -> (r: RedrawPlan)
    ensures
        r == redraw_plan_spec(mode, overlay_visible, transport),
{
    match mode {
        RedrawMode::Idle => RedrawPlan::Nothing,
        RedrawMode::HeaderRefresh => if overlay_visible && transport != TransportMode::File {
            RedrawPlan::Current { refresh_image: false, full_refresh: false }
        } else {
            RedrawPlan::HeaderOnly
        },
        RedrawMode::FullRefresh => RedrawPlan::Refresh { full_refresh: true },
        RedrawMode::LayoutRefresh => RedrawPlan::Refresh { full_refresh: true },
        RedrawMode::ImageRefresh => RedrawPlan::Refresh { full_refresh: false },
        RedrawMode::ImageReplace => RedrawPlan::Prepared,
    }
}

/// Whether the image prepared for image `index` in generation `generation`
/// may replace the shown one: it is for the current image and the latest
/// request.
pub fn prepared_is_current(index: usize, generation: u64, current: usize, latest_generation: u64) -> (r: bool)
    ensures
        r == (index == current && generation == latest_generation),
{
    index == current && generation == latest_generation
}

/// What the loop does about the debounced replacement of `c` at `now_ms`.
pub open spec fn pending_step_spec(c: ViewerCore, now_ms: u64) -> PendingStep {
    match c.pending_deadline {
        Some(d) => if !c.pending_replace {
            PendingStep::NotPending
        } else if now_ms >= d {
            PendingStep::Fire
        } else {
            PendingStep::Wait(
                if d - now_ms < MAX_PENDING_NAP_MS {
                    (d - now_ms) as u64
                } else {
                    MAX_PENDING_NAP_MS
                },
            )
        },
        None => PendingStep::NotPending,
    }
}

/// `c` after that step: a replacement that fires is taken off and the
/// redraw goes idle; otherwise nothing changes.
pub open spec fn after_pending_step(c: ViewerCore, now_ms: u64) -> ViewerCore {
    if pending_step_spec(c, now_ms) == PendingStep::Fire {
        ViewerCore { pending_replace: false, pending_deadline: None, redraw_mode: RedrawMode::Idle, ..c }
    } else {
        c
    }
}

impl ViewerCore {
    /// What to do about a debounced replacement at `now_ms`: when it is
    /// due it is taken off and the redraw goes idle (the caller requests
    /// the preview); else the caller naps until the deadline, at most
    /// `MAX_PENDING_NAP_MS` at a time.
    pub fn pending_replace_step(&mut self, now_ms: u64) -> (r: PendingStep)
        ensures
            r == pending_step_spec(*old(self), now_ms),
            *final(self) == after_pending_step(*old(self), now_ms),
    {
        if !self.pending_replace {
            return PendingStep::NotPending;
        }
        match self.pending_deadline {
            Some(d) => {
                if now_ms >= d {
                    self.pending_replace = false;
                    self.pending_deadline = None;
                    self.redraw_mode = RedrawMode::Idle;
                    PendingStep::Fire
                } else {
                    let remaining = d - now_ms;
                    PendingStep::Wait(
                        if remaining < MAX_PENDING_NAP_MS {
                            remaining
                        } else {
                            MAX_PENDING_NAP_MS
                        },
                    )
                }
            },
            None => PendingStep::NotPending,
        }
    }
}

/// Whether the idle read-ahead runs at `now_ms`: nothing is to be drawn,
/// no replacement waits, no preview is awaited, read-ahead is on, and the
/// last one ran at least `interval_ms` ago (or never).
pub open spec fn idle_prefetch_due_spec(
    mode: RedrawMode,
    pending_replace: bool,
    awaiting: bool,
    prefetch_size: usize,
    last_at: Option<u64>,
    now_ms: u64,
    interval_ms: u64,
) -> bool {
    &&& mode == RedrawMode::Idle
    &&& !pending_replace
    &&& !awaiting
    &&& prefetch_size > 0
    &&& match last_at {
        None => true,
        Some(t) => (if now_ms >= t {
            now_ms - t
        } else {
            0
        }) >= interval_ms,
    }
}

/// See `idle_prefetch_due_spec`.
pub fn idle_prefetch_due(
    mode: RedrawMode,
    pending_replace: bool,
    awaiting: bool,
    prefetch_size: usize,
    last_at: Option<u64>,
    now_ms: u64,
    interval_ms: u64,
) -> (r: bool)
    ensures
        r == idle_prefetch_due_spec(mode, pending_replace, awaiting, prefetch_size, last_at, now_ms, interval_ms),
{
    if mode != RedrawMode::Idle || pending_replace || awaiting || prefetch_size == 0 {
        return false;
    }
    match last_at {
        None => true,
        Some(t) => {
            let elapsed = if now_ms >= t {
                now_ms - t
            } else {
                0
            };
            elapsed >= interval_ms
        },
    }
}

/// The neighbour `step` places from `current` in `direction`, wrapping
/// around a list of `len`.
pub open spec fn neighbour(current: int, len: int, step: int, direction: NavDirection) -> int {
    let s = step % len;
    match direction {
        NavDirection::Forward => (current + s) % len,
        NavDirection::Backward => (current + len - s) % len,
    }
}

/// Whether a read-ahead from `current` (of `len`) in `direction`, up to
/// `max_steps` places away, is worth starting: the cache is on, something
/// is asked for, the list has two images or more, and the last read-ahead
/// did not already go as far from the same place in the same direction.
pub open spec fn prefetch_needed_spec(
    cache_enabled: bool,
    current: usize,
    len: usize,
    direction: NavDirection,
    max_steps: usize,
    last: Option<(usize, NavDirection, usize)>,
) -> bool {
    &&& cache_enabled
    &&& max_steps > 0
    &&& len >= 2
    &&& !(last matches Some((i, d, depth)) && i == current && d == direction && depth >= max_steps)
}

/// See `prefetch_needed_spec`.
pub fn prefetch_needed(
    cache_enabled: bool,
    current: usize,
    len: usize,
    direction: NavDirection,
    max_steps: usize,
    last: Option<(usize, NavDirection, usize)>,
) -> (r: bool)
    ensures
        r == prefetch_needed_spec(cache_enabled, current, len, direction, max_steps, last),
{
    if !cache_enabled || max_steps == 0 || len < 2 {
        return false;
    }
    match last {
        Some((i, d, depth)) => !(i == current && d == direction && depth >= max_steps),
        None => true,
    }
}

/// The neighbours from place `step` to `max_steps`, the current image left
/// out, in order of distance.
pub open spec fn candidates_from(current: int, len: int, direction: NavDirection, step: int, max_steps: int) -> Seq<usize>
    decreases max_steps + 1 - step,
{
    if step > max_steps || step < 1 {
        Seq::empty()
    } else {
        let p = neighbour(current, len, step, direction);
        let rest = candidates_from(current, len, direction, step + 1, max_steps);
        if p != current {
            seq![p as usize] + rest
        } else {
            rest
        }
    }
}

/// The images to read ahead, nearest first: the neighbours 1 to
/// `max_steps` places from `current` in `direction`, wrapping around a
/// list of `len`, except the current image itself (a place may come back
/// when `max_steps` reaches past the end of the list).
pub fn prefetch_candidates(current: usize, len: usize, direction: NavDirection, max_steps: usize) -> (r: Vec<usize>)
    requires
        current < len,
        len <= usize::MAX / 2,
    ensures
        r@ == candidates_from(current as int, len as int, direction, 1, max_steps as int),
        forall|k: int| 0 <= k < r@.len() ==> #[trigger] r@[k] < len,
{
    let mut out: Vec<usize> = Vec::new();
    let mut k: usize = 0;
    while k < max_steps
        invariant
            current < len,
            len <= usize::MAX / 2,
            k <= max_steps,
            out@ + candidates_from(current as int, len as int, direction, k + 1, max_steps as int)
                == candidates_from(current as int, len as int, direction, 1, max_steps as int),
            forall|j: int| 0 <= j < out@.len() ==> #[trigger] out@[j] < len,
        decreases max_steps - k,
    {
        let step = k + 1;
        let step_mod = step % len;
        let primary = match direction {
            NavDirection::Forward => (current + step_mod) % len,
            NavDirection::Backward => (current + (len - step_mod)) % len,
        };
        let ghost rest = candidates_from(current as int, len as int, direction, step + 1, max_steps as int);
        assert(primary == neighbour(current as int, len as int, step as int, direction));
        let ghost old_out = out@;
        if primary != current {
            out.push(primary);
            assert(out@ + rest == old_out + (seq![primary] + rest));
        }
        k = k + 1;
    }
    out
}

impl PreviewState {
    /// Records a finished read-ahead.
    pub fn record_prefetch(&mut self, current: usize, direction: NavDirection, max_steps: usize)
        ensures
            *final(self) == (PreviewState { last_prefetch_state: Some((current, direction, max_steps)), ..*old(self) }),
    {
        self.last_prefetch_state = Some((current, direction, max_steps));
    }
}

/// Reading ahead never asks for the current image again, and every
/// place it lists lies in the list.
pub proof fn lemma_candidates_exclude_current(
    current: int,
    len: int,
    direction: NavDirection,
    step: int,
    max_steps: int,
)
    requires
        0 <= current < len,
        len <= usize::MAX,
    ensures
        forall|k: int|
            0 <= k < candidates_from(current, len, direction, step, max_steps).len() ==> {
                let p = #[trigger] candidates_from(current, len, direction, step, max_steps)[k];
                p != current && p < len
            },
    decreases max_steps + 1 - step,
{
    if step > max_steps || step < 1 {
    } else {
        lemma_candidates_exclude_current(current, len, direction, step + 1, max_steps);
        let p = neighbour(current, len, step, direction);
        let rest = candidates_from(current, len, direction, step + 1, max_steps);
        let s = step % len;
        assert(0 <= s < len);
        assert(0 <= p < len);
        if p != current {
            let all = seq![p as usize] + rest;
            assert forall|k: int| 0 <= k < all.len() implies all[k] != current && all[k] < len by {
                if k > 0 {
                    assert(all[k] == rest[k - 1]);
                }
            }
        }
    }
}

/// A replacement scheduled at `now_ms` with a debounce of `debounce_ms`
/// fires at any time from `now_ms + debounce_ms` on; before that the
/// loop waits, a positive time that never reaches past the deadline. With
/// no debounce nothing waits.
pub proof fn lemma_debounced_replacement_fires_after_delay(c: ViewerCore, debounce_ms: u64, now_ms: u64, t: u64)
    requires
        now_ms + debounce_ms <= u64::MAX,
    ensures
        debounce_ms == 0 ==> pending_step_spec(c.with_replace_scheduled(debounce_ms, now_ms), t)
            == PendingStep::NotPending,
        debounce_ms > 0 && t >= now_ms + debounce_ms ==> pending_step_spec(
            c.with_replace_scheduled(debounce_ms, now_ms),
            t,
        ) == PendingStep::Fire,
        debounce_ms > 0 && t < now_ms + debounce_ms ==> (pending_step_spec(
            c.with_replace_scheduled(debounce_ms, now_ms),
            t,
        ) matches PendingStep::Wait(w) && 0 < w && t + w <= now_ms + debounce_ms),
{
}

/// Once a request went out, only its own answer counts: an answer for any
/// other image or generation (an earlier request's) is ignored, and the
/// awaited one is used when it is for the current image and carries one.
pub proof fn lemma_only_latest_answer_counts(
    p: PreviewState,
    index: usize,
    generation: u64,
    answer_index: usize,
    answer_generation: u64,
    current: usize,
    ok: bool,
)
    requires
        p.expected_preview_generation == Some((index, generation)),
    ensures
        (answer_index, answer_generation) != (index, generation) ==> response_action_spec(
            p,
            answer_index,
            answer_generation,
            current,
            ok,
        ) == ResponseAction::Ignore,
        response_action_spec(p, index, generation, index, true) == ResponseAction::UsePayload,
{
}

} // verus!
