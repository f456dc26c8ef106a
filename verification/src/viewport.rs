//! The viewport transform of the interactive surface: pan is an additive
//! offset, zoom a multiplicative scale bounded to 0.2x-4.0x, both held in
//! integer thousandths. Zooming keeps the graph point under the cursor
//! fixed. The pointer state machine drives pan and zoom.

use vstd::prelude::*;

verus! {

/// Smallest zoom scale, in thousandths (0.2x).
pub const MIN_SCALE_MILLI: i64 = 200;

/// Largest zoom scale, in thousandths (4.0x).
pub const MAX_SCALE_MILLI: i64 = 4000;

/// Largest pan offset magnitude, in milli-pixels.
pub const OFFSET_LIMIT_MILLI: i64 = 0x40_0000_0000_0000;

/// The view transform: screen = graph * scale + offset, all in thousandths.
pub struct Viewport {
    pub scale_milli: i64,
    pub offset_x_milli: i64,
    pub offset_y_milli: i64,
}

pub open spec fn clamp_spec(x: int, lo: int, hi: int) -> int {
    if x < lo {
        lo
    } else if x > hi {
        hi
    } else {
        x
    }
}

/// Where a graph coordinate lands on screen, in milli-pixels.
pub open spec fn screen_of(scale_milli: int, offset_milli: int, g: int) -> int {
    g * scale_milli + offset_milli
}

/// Division truncating toward zero (for a positive divisor), as the
/// machine computes it.
pub open spec fn trunc_div(a: int, b: int) -> int {
    if a >= 0 {
        a / b
    } else {
        -((-a) / b)
    }
}

/// The offset that keeps the cursor's graph point fixed when the scale
/// changes from `os` to `ns`.
pub open spec fn zoom_offset_spec(c: int, off: int, os: int, ns: int) -> int {
    c - trunc_div((c - off) * ns, os)
}

impl Viewport {
    pub open spec fn wf(&self) -> bool {
        &&& MIN_SCALE_MILLI <= self.scale_milli <= MAX_SCALE_MILLI
        &&& -OFFSET_LIMIT_MILLI <= self.offset_x_milli <= OFFSET_LIMIT_MILLI
        &&& -OFFSET_LIMIT_MILLI <= self.offset_y_milli <= OFFSET_LIMIT_MILLI
    }

    /// The identity view: scale 1.0, no offset.
    pub fn new() -> (r: Viewport)
        ensures
            r.wf(),
            r.scale_milli == 1000,
            r.offset_x_milli == 0,
            r.offset_y_milli == 0,
    {
        Viewport { scale_milli: 1000, offset_x_milli: 0, offset_y_milli: 0 }
    }

    /// Pan by a screen delta; the offset saturates at the pan range.
    pub fn pan_by(&self, dx_milli: i64, dy_milli: i64) -> (r: Viewport)
        requires
            self.wf(),
        ensures
            r.wf(),
            r.scale_milli == self.scale_milli,
            r.offset_x_milli as int == clamp_spec(
                self.offset_x_milli + dx_milli,
                -OFFSET_LIMIT_MILLI as int,
                OFFSET_LIMIT_MILLI as int,
            ),
            r.offset_y_milli as int == clamp_spec(
                self.offset_y_milli + dy_milli,
                -OFFSET_LIMIT_MILLI as int,
                OFFSET_LIMIT_MILLI as int,
            ),
    {
        Viewport {
            scale_milli: self.scale_milli,
            offset_x_milli: clamp_sum(self.offset_x_milli, dx_milli),
            offset_y_milli: clamp_sum(self.offset_y_milli, dy_milli),
        }
    }

    /// Zoom to a new scale, keeping the graph point under the cursor fixed
    /// (see [`lemma_zoom_anchors`]); the scale is clamped to its range and
    /// the offset saturates at the pan range.
    pub fn zoom_at(&self, cursor_x_milli: i64, cursor_y_milli: i64, new_scale_milli: i64) -> (r:
        Viewport)
        requires
            self.wf(),
            -OFFSET_LIMIT_MILLI <= cursor_x_milli <= OFFSET_LIMIT_MILLI,
            -OFFSET_LIMIT_MILLI <= cursor_y_milli <= OFFSET_LIMIT_MILLI,
        ensures
            r.wf(),
            r.scale_milli as int == clamp_spec(
                new_scale_milli as int,
                MIN_SCALE_MILLI as int,
                MAX_SCALE_MILLI as int,
            ),
            r.offset_x_milli as int == clamp_spec(
                zoom_offset_spec(
                    cursor_x_milli as int,
                    self.offset_x_milli as int,
                    self.scale_milli as int,
                    r.scale_milli as int,
                ),
                -OFFSET_LIMIT_MILLI as int,
                OFFSET_LIMIT_MILLI as int,
            ),
            r.offset_y_milli as int == clamp_spec(
                zoom_offset_spec(
                    cursor_y_milli as int,
                    self.offset_y_milli as int,
                    self.scale_milli as int,
                    r.scale_milli as int,
                ),
                -OFFSET_LIMIT_MILLI as int,
                OFFSET_LIMIT_MILLI as int,
            ),
    {
        let ns: i64 = if new_scale_milli < MIN_SCALE_MILLI {
            MIN_SCALE_MILLI
        } else if new_scale_milli > MAX_SCALE_MILLI {
            MAX_SCALE_MILLI
        } else {
            new_scale_milli
        };
        let ox = zoom_offset_exec(cursor_x_milli, self.offset_x_milli, self.scale_milli, ns);
        let oy = zoom_offset_exec(cursor_y_milli, self.offset_y_milli, self.scale_milli, ns);
        Viewport { scale_milli: ns, offset_x_milli: ox, offset_y_milli: oy }
    }
}

/// Saturating addition within the pan range.
fn clamp_sum(a: i64, b: i64) -> (r: i64)
    requires
        -OFFSET_LIMIT_MILLI <= a <= OFFSET_LIMIT_MILLI,
    ensures
        r as int == clamp_spec(a + b, -OFFSET_LIMIT_MILLI as int, OFFSET_LIMIT_MILLI as int),
        -OFFSET_LIMIT_MILLI <= r <= OFFSET_LIMIT_MILLI,
{
    let s: i128 = a as i128 + b as i128;
    if s < -OFFSET_LIMIT_MILLI as i128 {
        -OFFSET_LIMIT_MILLI
    } else if s > OFFSET_LIMIT_MILLI as i128 {
        OFFSET_LIMIT_MILLI
    } else {
        s as i64
    }
}

/// The cursor-anchored offset, computed exactly in wide arithmetic and
/// saturated to the pan range.
fn zoom_offset_exec(c: i64, off: i64, os: i64, ns: i64) -> (r: i64)
    requires
        MIN_SCALE_MILLI <= os <= MAX_SCALE_MILLI,
        MIN_SCALE_MILLI <= ns <= MAX_SCALE_MILLI,
        -OFFSET_LIMIT_MILLI <= c <= OFFSET_LIMIT_MILLI,
        -OFFSET_LIMIT_MILLI <= off <= OFFSET_LIMIT_MILLI,
    ensures
        r as int == clamp_spec(
            zoom_offset_spec(c as int, off as int, os as int, ns as int),
            -OFFSET_LIMIT_MILLI as int,
            OFFSET_LIMIT_MILLI as int,
        ),
        -OFFSET_LIMIT_MILLI <= r <= OFFSET_LIMIT_MILLI,
{
    let diff: i128 = c as i128 - off as i128;
    proof {
        assert(-(2 * OFFSET_LIMIT_MILLI as int) <= diff as int <= 2 * OFFSET_LIMIT_MILLI as int);
        assert(diff as int * ns as int <= 2 * OFFSET_LIMIT_MILLI as int * MAX_SCALE_MILLI as int
            && -(2 * OFFSET_LIMIT_MILLI as int * MAX_SCALE_MILLI as int) <= diff as int
            * ns as int) by (nonlinear_arith)
            requires
                -(2 * OFFSET_LIMIT_MILLI as int) <= diff as int <= 2 * OFFSET_LIMIT_MILLI as int,
                200 <= ns as int <= 4000,
        ;
    }
    let scaled: i128 = diff * ns as i128;
    let osi: i128 = os as i128;
    let quot: i128 = if scaled >= 0 {
        let q = scaled / osi;
        proof {
            assert(0 <= scaled as int / osi as int <= scaled as int) by (nonlinear_arith)
                requires
                    osi as int >= 200,
                    scaled as int >= 0,
            ;
        }
        q
    } else {
        let neg = -scaled;
        let q = neg / osi;
        proof {
            assert(0 <= neg as int / osi as int <= neg as int) by (nonlinear_arith)
                requires
                    osi as int >= 200,
                    neg as int >= 0,
            ;
        }
        -q
    };
    proof {
        assert(quot as int == trunc_div(scaled as int, osi as int));
    }
    let res: i128 = c as i128 - quot;
    if res < -OFFSET_LIMIT_MILLI as i128 {
        -OFFSET_LIMIT_MILLI
    } else if res > OFFSET_LIMIT_MILLI as i128 {
        OFFSET_LIMIT_MILLI
    } else {
        res as i64
    }
}

/// Zoom anchoring: a graph point exactly under the cursor before the zoom
/// is exactly under it afterwards. The division in the offset update is
/// exact for that point, so no tolerance is needed.
pub proof fn lemma_zoom_anchors(c: int, off: int, os: int, ns: int, g: int)
    requires
        os > 0,
        screen_of(os, off, g) == c,
    ensures
        screen_of(ns, zoom_offset_spec(c, off, os, ns), g) == c,
{
    assert(c - off == g * os);
    assert((g * os) * ns == (g * ns) * os) by (nonlinear_arith);
    let a = (g * ns) * os;
    if a >= 0 {
        assert(a / os == g * ns) by (nonlinear_arith)
            requires
                os > 0,
                a == (g * ns) * os,
                a >= 0,
        ;
    } else {
        assert((-a) == (-(g * ns)) * os) by (nonlinear_arith)
            requires
                a == (g * ns) * os,
        ;
        assert((-a) / os == -(g * ns)) by (nonlinear_arith)
            requires
                os > 0,
                (-a) == (-(g * ns)) * os,
                (-a) >= 0,
        ;
    }
    assert(trunc_div(a, os) == g * ns);
    assert(zoom_offset_spec(c, off, os, ns) == c - g * ns);
}

/// The pointer state machine of the interaction surface.
#[derive(Debug, Clone, Copy, PartialEq, Eq, Structural)]
pub enum InteractMode {
    Idle,
    Dragging,
}

/// A pointer or wheel event, with its screen coordinates in milli-pixels.
pub enum UiEvent {
    PointerDown,
    PointerMove { dx_milli: i64, dy_milli: i64 },
    PointerUp,
    Wheel { cursor_x_milli: i64, cursor_y_milli: i64, new_scale_milli: i64 },
}

/// The interactive view state: the pointer mode and the viewport.
pub struct ViewState {
    pub mode: InteractMode,
    pub viewport: Viewport,
}

impl ViewState {
    pub open spec fn wf(&self) -> bool {
        self.viewport.wf()
    }

    pub fn new() -> (r: ViewState)
        ensures
            r.wf(),
            r.mode == InteractMode::Idle,
    {
        ViewState { mode: InteractMode::Idle, viewport: Viewport::new() }
    }

    /// One transition: pointer down starts a drag, movement pans only while
    /// dragging, pointer up ends the drag, and a wheel event zooms around
    /// the cursor without changing the mode.
    pub fn step(&self, ev: UiEvent) -> (r: ViewState)
        requires
            self.wf(),
            match ev {
                UiEvent::Wheel { cursor_x_milli, cursor_y_milli, .. } => {
                    &&& -OFFSET_LIMIT_MILLI <= cursor_x_milli <= OFFSET_LIMIT_MILLI
                    &&& -OFFSET_LIMIT_MILLI <= cursor_y_milli <= OFFSET_LIMIT_MILLI
                },
                _ => true,
            },
        ensures
            r.wf(),
            match ev {
                UiEvent::PointerDown => r.mode == InteractMode::Dragging && r.viewport
                    == self.viewport,
                UiEvent::PointerMove { dx_milli, dy_milli } => r.mode == self.mode && (
                if self.mode == InteractMode::Dragging {
                    r.viewport == self.viewport.pan_by_spec(dx_milli as int, dy_milli as int)
                } else {
                    r.viewport == self.viewport
                }),
                UiEvent::PointerUp => r.mode == InteractMode::Idle && r.viewport == self.viewport,
                UiEvent::Wheel { .. } => r.mode == self.mode,
            },
    {
        match ev {
            UiEvent::PointerDown => ViewState { mode: InteractMode::Dragging, viewport: dup_viewport(&self.viewport) },
            UiEvent::PointerMove { dx_milli, dy_milli } => {
                if self.mode == InteractMode::Dragging {
                    let v = self.viewport.pan_by(dx_milli, dy_milli);
                    proof {
                        assert(v == self.viewport.pan_by_spec(dx_milli as int, dy_milli as int));
                    }
                    ViewState { mode: self.mode, viewport: v }
                } else {
                    ViewState { mode: self.mode, viewport: dup_viewport(&self.viewport) }
                }
            },
            UiEvent::PointerUp => ViewState { mode: InteractMode::Idle, viewport: dup_viewport(&self.viewport) },
            UiEvent::Wheel { cursor_x_milli, cursor_y_milli, new_scale_milli } => {
                let v = self.viewport.zoom_at(cursor_x_milli, cursor_y_milli, new_scale_milli);
                ViewState { mode: self.mode, viewport: v }
            },
        }
    }
}

impl Viewport {
    /// The panned viewport, as a value.
    pub open spec fn pan_by_spec(&self, dx: int, dy: int) -> Viewport {
        Viewport {
            scale_milli: self.scale_milli,
            offset_x_milli: clamp_spec(
                self.offset_x_milli + dx,
                -OFFSET_LIMIT_MILLI as int,
                OFFSET_LIMIT_MILLI as int,
            ) as i64,
            offset_y_milli: clamp_spec(
                self.offset_y_milli + dy,
                -OFFSET_LIMIT_MILLI as int,
                OFFSET_LIMIT_MILLI as int,
            ) as i64,
        }
    }
}

fn dup_viewport(v: &Viewport) -> (r: Viewport)
    ensures
        r == *v,
{
    Viewport {
        scale_milli: v.scale_milli,
        offset_x_milli: v.offset_x_milli,
        offset_y_milli: v.offset_y_milli,
    }
}

} // verus!
