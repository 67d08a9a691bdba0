//! The compositor's state: the completed canvas, the stroke in progress, the
//! damage not yet redrawn, and the two flags that pace redraws against the
//! acknowledgement of the frame before.

use crate::pixels::{copy_rows, frame_len, rows_copied, within};
use crate::types::{Color, Point, Rect, Stroke, StrokeView};
use vstd::prelude::*;

verus! {

/// The pointer button that draws.
pub const DRAW_BUTTON: u32 = 272;

/// Thickness of a new stroke: four pixels, in fixed-point units.
pub const DEFAULT_THICKNESS: u32 = 1024;

/// The key that ends the program.
pub const ESCAPE_KEY: u32 = 0xff1b;

/// The side taken where a surface is configured without one.
pub const FALLBACK_SIZE: u32 = 256;

/// The widest canvas: a row of it has a signed 32-bit length in bytes.
pub const MAX_WIDTH: u32 = 0x1fff_ffff;

/// The tallest canvas: its height is a signed 32-bit number.
pub const MAX_HEIGHT: u32 = 0x7fff_ffff;

/// `tiny_skia::Pixmap`, the raster that owns its pixels. Nothing of its
/// inside is known here but what `pixmap_bytes` names.
#[verifier::external_type_specification]
#[verifier::external_body]
pub struct ExPixmap(tiny_skia::Pixmap);

/// The bytes that a pixmap holds: four to the pixel (red, green, blue,
/// alpha), row after row.
pub uninterp spec fn pixmap_bytes(p: tiny_skia::Pixmap) -> Seq<u8>;

/// `tiny_skia::Pixmap::data`: the pixmap's bytes, borrowed.
#[verifier::external_body]
fn pixmap_data(p: &tiny_skia::Pixmap) -> (r: &[u8])
    ensures
        r@ == pixmap_bytes(*p),
{
    p.data()
}

/// `tiny_skia::Pixmap::new`: a pixmap of the given size with every byte
/// zero. It is refused for a side of zero and for a row of more than
/// `i32::MAX` bytes. A pixmap that outgrows what a vector can hold is left
/// out.
#[verifier::external_body]
fn new_pixmap(width: u32, height: u32) -> (r: Option<tiny_skia::Pixmap>)
    requires
        frame_len(width, height) <= isize::MAX,
    ensures
        r.is_some() == (width > 0 && height > 0 && 4 * width <= i32::MAX),
        r matches Some(p) ==> pixmap_bytes(p) == blank(width, height),
{
    tiny_skia::Pixmap::new(width, height)
}

/// A cleared frame: every byte zero.
pub open spec fn blank(width: u32, height: u32) -> Seq<u8> {
    Seq::new(frame_len(width, height) as nat, |i: int| 0u8)
}

/// The colour of a new stroke: opaque red.
pub open spec fn default_color() -> Color {
    Color { r: 255, g: 0, b: 0, a: 255 }
}

/// The whole of a surface of the given size.
pub open spec fn screen(width: u32, height: u32) -> Rect {
    Rect { x: 0, y: 0, w: width, h: height }
}

/// Damage with more damage added to it.
pub open spec fn merged(damage: Option<Rect>, extra: Option<Rect>) -> Option<Rect> {
    match damage {
        Some(d) => match extra {
            Some(e) => Some(d.union_of(e)),
            None => Some(d),
        },
        None => extra,
    }
}

/// Damage cut down to the surface; `None` where none of it is on the surface.
pub open spec fn clipped(damage: Option<Rect>, width: u32, height: u32) -> Option<Rect> {
    match damage {
        Some(d) => d.intersection(screen(width, height)),
        None => None,
    }
}

/// Damage, where there is any, is tame.
pub open spec fn tame_or_none(r: Option<Rect>) -> bool {
    r matches Some(d) ==> d.tame()
}

/// A canvas of this size can be made.
pub open spec fn size_supported(width: u32, height: u32) -> bool {
    &&& 0 < width <= MAX_WIDTH
    &&& 0 < height <= MAX_HEIGHT
    &&& frame_len(width, height) <= isize::MAX
}

/// The side that a configuration asks for, or the fallback where it asks
/// for none.
pub open spec fn side_or_fallback(side: u32) -> u32 {
    if side == 0 {
        FALLBACK_SIZE
    } else {
        side
    }
}

/// Adds `extra` to `damage`: the union where both are there, else the one
/// that is.
pub fn merge_damage(damage: Option<Rect>, extra: Option<Rect>) -> (r: Option<Rect>)
    requires
        damage matches Some(d) ==> (extra matches Some(e) ==> d.can_union(e)),
    ensures
        r == merged(damage, extra),
{
    match damage {
        Some(d) => match extra {
            Some(e) => Some(d.union(&e)),
            None => Some(d),
        },
        None => extra,
    }
}

/// Cuts `damage` down to a surface of the given size.
pub fn clip_damage(damage: Option<Rect>, width: u32, height: u32) -> (r: Option<Rect>)
    ensures
        r == clipped(damage, width, height),
        r matches Some(d) ==> within(d, width, height) && d.w > 0 && d.h > 0,
{
    match damage {
        Some(d) => {
            let bound = Rect { x: 0, y: 0, w: width, h: height };
            d.intersect(&bound)
        },
        None => None,
    }
}

/// What a pointer did.
#[derive(Clone, Copy, Debug, PartialEq, Eq, Structural)]
pub enum PointerKind {
    Enter,
    Leave,
    Motion,
    Press { button: u32 },
    Release { button: u32 },
    Axis,
}

/// A pointer event on the overlay's surface.
#[derive(Clone, Copy, Debug, PartialEq, Eq, Structural)]
pub struct PointerInput {
    pub position: Point,
    pub kind: PointerKind,
}

/// What the caller owes after a pointer event.
#[derive(Clone, Debug)]
pub struct PointerOutcome {
    /// The stroke that was finished and is to be painted onto the completed
    /// canvas.
    pub committed: Option<Stroke>,
    /// The stroke in progress changed or was finished: a redraw is wanted
    /// at the end of this batch of events.
    pub redraw: bool,
}

/// What the caller owes after a batch of pointer events.
#[derive(Clone, Debug)]
pub struct PointerFrameOutcome {
    /// The strokes that were finished, in order; each is to be painted onto
    /// the completed canvas.
    pub committed: Vec<Stroke>,
    /// A frame is to be drawn now.
    pub draw_now: bool,
}

/// Why a canvas could not be made.
#[derive(Clone, Copy, Debug, PartialEq, Eq, Structural)]
pub enum SizeError {
    /// The size is zero, or beyond `MAX_WIDTH`, `MAX_HEIGHT` or the memory
    /// that can be addressed.
    Unsupported,
}

/// The state of the overlay that does not depend on the display server.
pub struct AppState {
    /// The program was asked to end.
    pub exit: bool,
    /// The surface has not been configured yet.
    pub first_configure: bool,
    /// Width of the surface, in pixels.
    pub width: u32,
    /// Height of the surface, in pixels.
    pub height: u32,
    /// The surface has the keyboard's focus.
    pub keyboard_focus: bool,
    /// The stroke that is being drawn under the pointer.
    pub active_stroke: Option<Stroke>,
    /// Every finished stroke, painted.
    pub completed_canvas: tiny_skia::Pixmap,
    /// The box of the stroke in progress as the last frame drew it.
    pub last_active_stroke_rect: Option<Rect>,
    /// What is known to have changed and has not been redrawn.
    pub pending_damage: Option<Rect>,
    /// Something changed since the last frame was drawn.
    pub needs_redraw: bool,
    /// A frame was submitted and has not been acknowledged.
    pub frame_pending: bool,
}

/// Whether a canvas of this size can be made.
fn size_is_supported(width: u32, height: u32) -> (r: bool)
    ensures
        r == size_supported(width, height),
{
    if width == 0 || width > MAX_WIDTH || height == 0 || height > MAX_HEIGHT {
        return false;
    }
    assert(width * height <= 0x1fff_ffff * 0x7fff_ffff) by (nonlinear_arith)
        requires
            0 < width <= 0x1fff_ffff,
            0 < height <= 0x7fff_ffff,
    ;
    let bytes: u64 = (width as u64 * height as u64) * 4;
    bytes <= isize::MAX as u64
}

impl AppState {
    /// The canvas has the size that the state gives, and the recorded
    /// damage is tame.
    pub open spec fn wf(self) -> bool {
        &&& 0 < self.width <= MAX_WIDTH
        &&& 0 < self.height <= MAX_HEIGHT
        &&& pixmap_bytes(self.completed_canvas).len() == frame_len(self.width, self.height)
        &&& tame_or_none(self.pending_damage)
        &&& tame_or_none(self.last_active_stroke_rect)
    }

    /// The part of the state that pointer events work on.
    pub open spec fn pen(self) -> Pen {
        Pen {
            active: stroke_view(self.active_stroke),
            pending: self.pending_damage,
            needs_redraw: self.needs_redraw,
        }
    }

    /// The padded box of the stroke in progress.
    pub open spec fn active_bounds(self) -> Option<Rect> {
        match self.active_stroke {
            Some(s) => s.bounds(),
            None => None,
        }
    }

    /// All that the next frame has to repaint: the pending damage, the box
    /// of the stroke in progress as it was last drawn, and its box now.
    pub open spec fn frame_damage(self) -> Option<Rect> {
        merged(merged(self.pending_damage, self.last_active_stroke_rect), self.active_bounds())
    }

    /// The rectangle that the next frame repaints, if any.
    pub open spec fn frame_dirty(self) -> Option<Rect> {
        clipped(self.frame_damage(), self.width, self.height)
    }

    /// The fields that only a configuration or a key changes are as in
    /// `before`.
    pub open spec fn surface_kept(self, before: AppState) -> bool {
        &&& self.exit == before.exit
        &&& self.first_configure == before.first_configure
        &&& self.width == before.width
        &&& self.height == before.height
        &&& self.keyboard_focus == before.keyboard_focus
        &&& self.completed_canvas == before.completed_canvas
    }

    /// The state at start: a cleared canvas, all of it damaged, a redraw
    /// wanted, no frame under way.
    pub fn new(width: u32, height: u32) -> (r: Result<AppState, SizeError>)
        ensures
            r.is_ok() == size_supported(width, height),
            r matches Ok(s) ==> {
                &&& s.wf()
                &&& s.width == width
                &&& s.height == height
                &&& pixmap_bytes(s.completed_canvas) == blank(width, height)
                &&& s.pending_damage == Some(screen(width, height))
                &&& s.last_active_stroke_rect is None
                &&& s.active_stroke is None
                &&& s.first_configure
                &&& s.needs_redraw
                &&& !s.frame_pending
                &&& !s.exit
                &&& !s.keyboard_focus
            },
    {
        if !size_is_supported(width, height) {
            return Err(SizeError::Unsupported);
        }
        match new_pixmap(width, height) {
            Some(canvas) => Ok(
                AppState {
                    exit: false,
                    first_configure: true,
                    width,
                    height,
                    keyboard_focus: false,
                    active_stroke: None,
                    completed_canvas: canvas,
                    last_active_stroke_rect: None,
                    pending_damage: Some(Rect { x: 0, y: 0, w: width, h: height }),
                    needs_redraw: true,
                    frame_pending: false,
                },
            ),
            None => Err(SizeError::Unsupported),
        }
    }

    /// Whether the state is well formed, for callers that Verus does not see.
    pub fn is_well_formed(&self) -> (r: bool)
        ensures
            r == self.wf(),
    {
        if self.width == 0 || self.width > MAX_WIDTH || self.height == 0 || self.height
            > MAX_HEIGHT {
            return false;
        }
        assert(self.width * self.height <= 0x1fff_ffff * 0x7fff_ffff) by (nonlinear_arith)
            requires
                0 < self.width <= 0x1fff_ffff,
                0 < self.height <= 0x7fff_ffff,
        ;
        let bytes: u64 = (self.width as u64 * self.height as u64) * 4;
        let data = pixmap_data(&self.completed_canvas);
        if data.len() as u64 != bytes {
            return false;
        }
        rect_is_tame(&self.pending_damage) && rect_is_tame(&self.last_active_stroke_rect)
    }

    /// The surface was configured with a new size (zero stands for the
    /// fallback). A change of size replaces the canvas by a cleared one and
    /// damages all of it. The first configuration, and every change of size,
    /// asks for a redraw. Returns whether to draw now: a redraw was asked for
    /// and no frame is under way.
    pub fn configure(&mut self, new_width: u32, new_height: u32) -> (r: Result<bool, SizeError>)
        requires
            old(self).wf(),
        ensures
            ({
                let w = side_or_fallback(new_width);
                let h = side_or_fallback(new_height);
                let resized = w != old(self).width || h != old(self).height;
                &&& r.is_err() == (resized && !size_supported(w, h))
                &&& r is Err ==> *final(self) == *old(self)
                &&& r matches Ok(draw_now) ==> {
                    &&& final(self).wf()
                    &&& final(self).width == w
                    &&& final(self).height == h
                    &&& resized ==> pixmap_bytes(final(self).completed_canvas) == blank(w, h)
                        && final(self).pending_damage == Some(screen(w, h))
                    &&& !resized ==> final(self).completed_canvas == old(self).completed_canvas
                        && final(self).pending_damage == old(self).pending_damage
                    &&& !final(self).first_configure
                    &&& final(self).needs_redraw == (old(self).needs_redraw || old(
                        self,
                    ).first_configure || resized)
                    &&& draw_now == ((old(self).first_configure || resized) && !old(
                        self,
                    ).frame_pending)
                    &&& final(self).exit == old(self).exit
                    &&& final(self).keyboard_focus == old(self).keyboard_focus
                    &&& final(self).active_stroke == old(self).active_stroke
                    &&& final(self).last_active_stroke_rect == old(self).last_active_stroke_rect
                    &&& final(self).frame_pending == old(self).frame_pending
                }
            }),
    {
        let width: u32 = if new_width == 0 { FALLBACK_SIZE } else { new_width };
        let height: u32 = if new_height == 0 { FALLBACK_SIZE } else { new_height };
        let resized: bool = width != self.width || height != self.height;
        if resized {
            if !size_is_supported(width, height) {
                return Err(SizeError::Unsupported);
            }
            match new_pixmap(width, height) {
                Some(canvas) => {
                    self.width = width;
                    self.height = height;
                    self.completed_canvas = canvas;
                    self.pending_damage = Some(Rect { x: 0, y: 0, w: width, h: height });
                },
                None => {
                    return Err(SizeError::Unsupported);
                },
            }
        }
        let mut draw_now: bool = false;
        if self.first_configure || resized {
            self.first_configure = false;
            self.needs_redraw = true;
            draw_now = !self.frame_pending;
        }
        Ok(draw_now)
    }

    /// The frame before was acknowledged. Returns whether to draw now: that
    /// is, whether a redraw is wanted.
    pub fn frame(&mut self) -> (draw_now: bool)
        ensures
            !final(self).frame_pending,
            draw_now == old(self).needs_redraw,
            final(self).needs_redraw == old(self).needs_redraw,
            final(self).surface_kept(*old(self)),
            final(self).active_stroke == old(self).active_stroke,
            final(self).pending_damage == old(self).pending_damage,
            final(self).last_active_stroke_rect == old(self).last_active_stroke_rect,
    {
        self.frame_pending = false;
        self.needs_redraw
    }

    /// One pointer event. A press of the drawing button starts a stroke at
    /// the pointer; a motion adds a point to the stroke in progress; a
    /// release of the drawing button, or the pointer leaving, finishes it:
    /// the stroke is handed back to be painted onto the completed canvas, and
    /// its box is added to the pending damage.
    pub fn pointer_event(&mut self, event: &PointerInput) -> (out: PointerOutcome)
        requires
            old(self).wf(),
        ensures
            final(self).wf(),
            final(self).surface_kept(*old(self)),
            final(self).last_active_stroke_rect == old(self).last_active_stroke_rect,
            final(self).frame_pending == old(self).frame_pending,
            final(self).pen() == pointer_step(old(self).pen(), *event).pen,
            stroke_view(out.committed) == pointer_step(old(self).pen(), *event).committed,
            out.redraw == pointer_step(old(self).pen(), *event).redraw,
    {
        match event.kind {
            PointerKind::Leave => self.finish_stroke(),
            PointerKind::Release { button } => {
                if button == DRAW_BUTTON {
                    self.finish_stroke()
                } else {
                    PointerOutcome { committed: None, redraw: false }
                }
            },
            PointerKind::Motion => {
                let taken: Option<Stroke> = self.active_stroke.take();
                match taken {
                    Some(stroke) => {
                        let mut stroke = stroke;
                        stroke.points.push(event.position);
                        self.active_stroke = Some(stroke);
                        PointerOutcome { committed: None, redraw: true }
                    },
                    None => PointerOutcome { committed: None, redraw: false },
                }
            },
            PointerKind::Press { button } => {
                if button == DRAW_BUTTON {
                    let mut points: Vec<Point> = Vec::new();
                    points.push(event.position);
                    self.active_stroke = Some(
                        Stroke {
                            points,
                            color: Color { r: 255, g: 0, b: 0, a: 255 },
                            thickness: DEFAULT_THICKNESS,
                        },
                    );
                    PointerOutcome { committed: None, redraw: true }
                } else {
                    PointerOutcome { committed: None, redraw: false }
                }
            },
            PointerKind::Enter => PointerOutcome { committed: None, redraw: false },
            PointerKind::Axis => PointerOutcome { committed: None, redraw: false },
        }
    }

    /// Ends the stroke in progress, if there is one.
    fn finish_stroke(&mut self) -> (out: PointerOutcome)
        requires
            old(self).wf(),
        ensures
            final(self).wf(),
            final(self).surface_kept(*old(self)),
            final(self).last_active_stroke_rect == old(self).last_active_stroke_rect,
            final(self).frame_pending == old(self).frame_pending,
            final(self).pen() == finished(old(self).pen()).pen,
            stroke_view(out.committed) == finished(old(self).pen()).committed,
            out.redraw == finished(old(self).pen()).redraw,
    {
        let taken: Option<Stroke> = self.active_stroke.take();
        match taken {
            Some(stroke) => {
                let bounds: Option<Rect> = stroke.bounding_box();
                self.needs_redraw = true;
                match bounds {
                    Some(b) => {
                        proof {
                            if let Some(d) = self.pending_damage {
                                crate::types::lemma_union_tame(d, b);
                            }
                        }
                        self.pending_damage = merge_damage(self.pending_damage, Some(b));
                        PointerOutcome { committed: Some(stroke), redraw: true }
                    },
                    None => PointerOutcome { committed: None, redraw: true },
                }
            },
            None => PointerOutcome { committed: None, redraw: false },
        }
    }

    /// A batch of pointer events, taken one after the other. Returns the
    /// strokes that were finished, in order, for the caller to paint onto the
    /// completed canvas, and whether to draw now: an event changed or
    /// finished the stroke in progress and no frame is under way.
    pub fn pointer_frame(&mut self, events: &[PointerInput]) -> (out: PointerFrameOutcome)
        requires
            old(self).wf(),
        ensures
            final(self).wf(),
            final(self).surface_kept(*old(self)),
            final(self).last_active_stroke_rect == old(self).last_active_stroke_rect,
            final(self).frame_pending == old(self).frame_pending,
            ({
                let run = pointer_run(old(self).pen(), events@);
                &&& final(self).pen() == Pen {
                    needs_redraw: run.pen.needs_redraw || run.redraw,
                    ..run.pen
                }
                &&& stroke_views(out.committed@) == run.committed
                &&& out.draw_now == (run.redraw && !old(self).frame_pending)
            }),
    {
        let ghost start = self.pen();
        let mut committed: Vec<Stroke> = Vec::new();
        let mut redraw: bool = false;
        let mut i: usize = 0;
        assert(stroke_views(committed@) =~= pointer_run(start, events@.take(0)).committed);
        while i < events.len()
            invariant
                i <= events.len(),
                self.wf(),
                self.surface_kept(*old(self)),
                self.last_active_stroke_rect == old(self).last_active_stroke_rect,
                self.frame_pending == old(self).frame_pending,
                start == old(self).pen(),
                self.pen() == pointer_run(start, events@.take(i as int)).pen,
                stroke_views(committed@) == pointer_run(start, events@.take(i as int)).committed,
                redraw == pointer_run(start, events@.take(i as int)).redraw,
            decreases events.len() - i,
        {
            let ghost before = committed@;
            assert(events@.take(i + 1).drop_last() =~= events@.take(i as int));
            assert(events@.take(i + 1).last() == events@[i as int]);
            let step: PointerOutcome = self.pointer_event(&events[i]);
            redraw = redraw || step.redraw;
            match step.committed {
                Some(stroke) => {
                    committed.push(stroke);
                    assert(stroke_views(committed@) =~= stroke_views(before).push(stroke@));
                },
                None => {},
            }
            i = i + 1;
        }
        assert(events@.take(events@.len() as int) =~= events@);
        let draw_now: bool = self.pointer_frame_done(redraw);
        PointerFrameOutcome { committed, draw_now }
    }

    /// A batch of pointer events is over. `redraw` tells whether any of
    /// them asked for a redraw. Returns whether to draw now: a redraw was
    /// asked for and no frame is under way.
    pub fn pointer_frame_done(&mut self, redraw: bool) -> (draw_now: bool)
        ensures
            final(self).needs_redraw == (old(self).needs_redraw || redraw),
            draw_now == (redraw && !old(self).frame_pending),
            final(self).frame_pending == old(self).frame_pending,
            final(self).surface_kept(*old(self)),
            final(self).active_stroke == old(self).active_stroke,
            final(self).pending_damage == old(self).pending_damage,
            final(self).last_active_stroke_rect == old(self).last_active_stroke_rect,
    {
        if redraw {
            self.needs_redraw = true;
            !self.frame_pending
        } else {
            false
        }
    }

    /// Starts a frame in `buffer`, a frame of the surface's size. The dirty
    /// rectangle is all damage there is, cut down to the surface. Where
    /// there is none the cycle is skipped: nothing changes but the record of
    /// damage, and `None` is returned. Otherwise the dirty pixels of `buffer`
    /// are taken from the completed canvas, the frame is marked as under
    /// way, and the dirty rectangle is returned: the caller paints the stroke
    /// in progress over it, swaps the channels, and submits it.
    pub fn draw(&mut self, buffer: &mut [u8]) -> (dirty: Option<Rect>)
        requires
            old(self).wf(),
            old(buffer)@.len() == frame_len(old(self).width, old(self).height),
        ensures
            final(self).wf(),
            dirty == old(self).frame_dirty(),
            dirty matches Some(d) ==> within(d, old(self).width, old(self).height) && d.w > 0
                && d.h > 0,
            final(self).pending_damage is None,
            final(self).last_active_stroke_rect == old(self).active_bounds(),
            final(self).frame_pending == (old(self).frame_pending || dirty.is_some()),
            final(self).needs_redraw == (old(self).needs_redraw && dirty.is_none()),
            final(self).surface_kept(*old(self)),
            final(self).active_stroke == old(self).active_stroke,
            match dirty {
                Some(d) => rows_copied(
                    old(buffer)@,
                    final(buffer)@,
                    pixmap_bytes(old(self).completed_canvas),
                    old(self).width,
                    old(self).height,
                    d,
                ),
                None => final(buffer)@ == old(buffer)@,
            },
    {
        let current: Option<Rect> = match &self.active_stroke {
            Some(stroke) => stroke.bounding_box(),
            None => None,
        };
        proof {
            if let Some(d) = self.pending_damage {
                if let Some(l) = self.last_active_stroke_rect {
                    crate::types::lemma_union_tame(d, l);
                }
            }
        }
        let erased: Option<Rect> = merge_damage(self.pending_damage, self.last_active_stroke_rect);
        proof {
            if let Some(d) = erased {
                if let Some(c) = current {
                    crate::types::lemma_union_tame(d, c);
                }
            }
        }
        let damage: Option<Rect> = merge_damage(erased, current);
        self.pending_damage = None;
        self.last_active_stroke_rect = current;
        let dirty: Option<Rect> = clip_damage(damage, self.width, self.height);
        match dirty {
            Some(d) => {
                let source = pixmap_data(&self.completed_canvas);
                copy_rows(buffer, source, self.width, self.height, &d);
                self.frame_pending = true;
                self.needs_redraw = false;
            },
            None => {},
        }
        dirty
    }

    /// A key was pressed: the escape key asks the program to end.
    pub fn press_key(&mut self, keysym: u32)
        ensures
            final(self).exit == (old(self).exit || keysym == ESCAPE_KEY),
            final(self).first_configure == old(self).first_configure,
            final(self).width == old(self).width,
            final(self).height == old(self).height,
            final(self).keyboard_focus == old(self).keyboard_focus,
            final(self).completed_canvas == old(self).completed_canvas,
            final(self).active_stroke == old(self).active_stroke,
            final(self).pending_damage == old(self).pending_damage,
            final(self).last_active_stroke_rect == old(self).last_active_stroke_rect,
            final(self).needs_redraw == old(self).needs_redraw,
            final(self).frame_pending == old(self).frame_pending,
    {
        if keysym == ESCAPE_KEY {
            self.exit = true;
        }
    }
}

/// What pointer events work on: the stroke in progress, the pending damage
/// and the wish for a redraw.
pub struct Pen {
    pub active: Option<StrokeView>,
    pub pending: Option<Rect>,
    pub needs_redraw: bool,
}

/// What one pointer event leads to: the pen after it, the stroke that it
/// finished and that is to be painted onto the completed canvas, and whether
/// it changed or finished the stroke in progress.
pub struct PenStep {
    pub pen: Pen,
    pub committed: Option<StrokeView>,
    pub redraw: bool,
}

/// What a batch of pointer events leads to: the pen after them, the strokes
/// that they finished, in order, and whether any changed or finished the
/// stroke in progress.
pub struct PenRun {
    pub pen: Pen,
    pub committed: Seq<StrokeView>,
    pub redraw: bool,
}

/// What an optional stroke holds.
pub open spec fn stroke_view(s: Option<Stroke>) -> Option<StrokeView> {
    match s {
        Some(stroke) => Some(stroke@),
        None => None,
    }
}

/// What each stroke of a run holds.
pub open spec fn stroke_views(v: Seq<Stroke>) -> Seq<StrokeView> {
    Seq::new(v.len(), |i: int| v[i]@)
}

/// The pen after the stroke in progress is finished. A stroke with a box
/// is committed and its box added to the pending damage; one without points
/// is dropped. Either way the stroke in progress is gone, and a redraw is
/// wanted. Without a stroke in progress nothing changes.
pub open spec fn finished(pen: Pen) -> PenStep {
    match pen.active {
        Some(s) => PenStep {
            pen: Pen {
                active: None,
                pending: merged(pen.pending, s.bounds()),
                needs_redraw: true,
            },
            committed: if s.bounds().is_some() {
                Some(s)
            } else {
                None
            },
            redraw: true,
        },
        None => PenStep { pen, committed: None, redraw: false },
    }
}

/// What one pointer event does to the pen.
pub open spec fn pointer_step(pen: Pen, event: PointerInput) -> PenStep {
    if starts_stroke(event.kind) {
        PenStep {
            pen: Pen {
                active: Some(
                    StrokeView {
                        points: seq![event.position],
                        color: default_color(),
                        thickness: DEFAULT_THICKNESS,
                    },
                ),
                ..pen
            },
            committed: None,
            redraw: true,
        }
    } else if ends_stroke(event.kind) {
        finished(pen)
    } else if event.kind is Motion {
        match pen.active {
            Some(s) => PenStep {
                pen: Pen {
                    active: Some(StrokeView { points: s.points.push(event.position), ..s }),
                    ..pen
                },
                committed: None,
                redraw: true,
            },
            None => PenStep { pen, committed: None, redraw: false },
        }
    } else {
        PenStep { pen, committed: None, redraw: false }
    }
}

/// What a batch of pointer events does to the pen, one event after the
/// other.
pub open spec fn pointer_run(pen: Pen, events: Seq<PointerInput>) -> PenRun
    decreases events.len(),
{
    if events.len() == 0 {
        PenRun { pen, committed: Seq::empty(), redraw: false }
    } else {
        let before = pointer_run(pen, events.drop_last());
        let step = pointer_step(before.pen, events.last());
        PenRun {
            pen: step.pen,
            committed: match step.committed {
                Some(s) => before.committed.push(s),
                None => before.committed,
            },
            redraw: before.redraw || step.redraw,
        }
    }
}

/// The event starts a stroke: a press of the drawing button.
pub open spec fn starts_stroke(kind: PointerKind) -> bool {
    kind matches PointerKind::Press { button } && button == DRAW_BUTTON
}

/// The event ends the stroke in progress: the pointer leaves, or the
/// drawing button is released.
pub open spec fn ends_stroke(kind: PointerKind) -> bool {
    kind is Leave || (kind matches PointerKind::Release { button } && button == DRAW_BUTTON)
}

/// Whether damage, where there is any, is tame.
fn rect_is_tame(r: &Option<Rect>) -> (t: bool)
    ensures
        t == tame_or_none(*r),
{
    match r {
        Some(d) => d.x >= -0x800_0000 && d.y >= -0x800_0000 && d.x as i64 + d.w as i64
            <= 0x7fff_ffff && d.y as i64 + d.h as i64 <= 0x7fff_ffff,
        None => true,
    }
}

/// With no pending damage, no stroke in progress and none drawn in the
/// frame before, a draw cycle has nothing to repaint.
pub proof fn lemma_idle_frame_skipped(s: AppState)
    requires
        s.pending_damage is None,
        s.active_stroke is None,
        s.last_active_stroke_rect is None,
    ensures
        s.frame_dirty() is None,
{
}

/// Merged damage covers what either part covers, and stays tame.
pub proof fn lemma_merged_covers(a: Option<Rect>, b: Option<Rect>, px: int, py: int)
    requires
        tame_or_none(a),
        tame_or_none(b),
    ensures
        tame_or_none(merged(a, b)),
        (a matches Some(d) && d.has_pixel(px, py)) || (b matches Some(d) && d.has_pixel(px, py))
            ==> (merged(a, b) matches Some(d) && d.has_pixel(px, py)),
{
}

/// No damage is lost: every pixel of the surface that lies in the pending
/// damage, in the box of the stroke as last drawn, or in its box now, lies in
/// the dirty rectangle of the next frame.
pub proof fn lemma_frame_covers_damage(s: AppState, px: int, py: int)
    requires
        s.wf(),
        0 <= px < s.width,
        0 <= py < s.height,
        (s.pending_damage matches Some(d) && d.has_pixel(px, py)) || (
        s.last_active_stroke_rect matches Some(d) && d.has_pixel(px, py)) || (
        s.active_bounds() matches Some(d) && d.has_pixel(px, py)),
    ensures
        s.frame_dirty() matches Some(d) && d.has_pixel(px, py),
{
    if let Some(stroke) = s.active_stroke {
        crate::types::lemma_box_tame(
            stroke@.points,
            crate::types::margin2(stroke@.thickness, false),
        );
    }
    let erased = merged(s.pending_damage, s.last_active_stroke_rect);
    lemma_merged_covers(s.pending_damage, s.last_active_stroke_rect, px, py);
    lemma_merged_covers(erased, s.active_bounds(), px, py);
    let all = merged(erased, s.active_bounds());
    assert(all matches Some(d) && d.has_pixel(px, py));
    assert(screen(s.width, s.height).has_pixel(px, py));
}

/// The events of drawing a line: the drawing button pressed at `first`, then
/// the pointer moved through `rest`.
pub open spec fn drawing_events(first: Point, rest: Seq<Point>) -> Seq<PointerInput> {
    Seq::new(
        rest.len() + 1,
        |i: int|
            if i == 0 {
                PointerInput { position: first, kind: PointerKind::Press { button: DRAW_BUTTON } }
            } else {
                PointerInput { position: rest[i - 1], kind: PointerKind::Motion }
            },
    )
}

/// The stroke that such events draw.
pub open spec fn drawn_stroke(first: Point, rest: Seq<Point>) -> StrokeView {
    StrokeView {
        points: seq![first] + rest,
        color: default_color(),
        thickness: DEFAULT_THICKNESS,
    }
}

/// Every pointer event that changes the stroke in progress or the pending
/// damage, or finishes a stroke, asks for a redraw.
pub proof fn lemma_change_asks_redraw(pen: Pen, event: PointerInput)
    ensures
        ({
            let step = pointer_step(pen, event);
            step.pen.active != pen.active || step.pen.pending != pen.pending
                || step.committed.is_some() ==> step.redraw
        }),
{
}

/// While a line is drawn the stroke in progress holds every position of the
/// pointer since the press, in order; nothing is committed and the pending
/// damage stays as it was.
pub proof fn lemma_stroke_in_progress(pen: Pen, first: Point, rest: Seq<Point>)
    ensures
        ({
            let run = pointer_run(pen, drawing_events(first, rest));
            &&& run.pen.active == Some(drawn_stroke(first, rest))
            &&& run.pen.pending == pen.pending
            &&& run.pen.needs_redraw == pen.needs_redraw
            &&& run.committed == Seq::<StrokeView>::empty()
            &&& run.redraw
        }),
    decreases rest.len(),
{
    let events = drawing_events(first, rest);
    if rest.len() == 0 {
        assert(events.drop_last() =~= Seq::<PointerInput>::empty());
        assert(pointer_run(pen, events.drop_last()).pen == pen);
        assert(starts_stroke(events.last().kind));
        assert(seq![first] + rest =~= seq![first]);
    } else {
        lemma_stroke_in_progress(pen, first, rest.drop_last());
        assert(events.drop_last() =~= drawing_events(first, rest.drop_last()));
        assert(events.last() == PointerInput { position: rest.last(), kind: PointerKind::Motion });
        assert((seq![first] + rest.drop_last()).push(rest.last()) =~= seq![first] + rest);
    }
}

/// Drawing a line and letting go (at whatever position) commits one stroke,
/// the line through every position from the press on, and adds exactly the
/// padded box of that stroke to the pending damage.
pub proof fn lemma_stroke_committed(pen: Pen, first: Point, rest: Seq<Point>, up: Point)
    ensures
        ({
            let release = PointerInput {
                position: up,
                kind: PointerKind::Release { button: DRAW_BUTTON },
            };
            let run = pointer_run(pen, drawing_events(first, rest).push(release));
            let stroke = drawn_stroke(first, rest);
            &&& run.committed == seq![stroke]
            &&& run.pen.active is None
            &&& run.pen.pending == merged(
                pen.pending,
                Some(
                    crate::types::padded_box(
                        stroke.points,
                        crate::types::margin2(DEFAULT_THICKNESS, false),
                    ),
                ),
            )
            &&& run.pen.needs_redraw
            &&& run.redraw
        }),
{
    let release = PointerInput { position: up, kind: PointerKind::Release { button: DRAW_BUTTON } };
    let events = drawing_events(first, rest).push(release);
    lemma_stroke_in_progress(pen, first, rest);
    assert(events.drop_last() =~= drawing_events(first, rest));
    assert(events.last() == release);
    assert(ends_stroke(release.kind));
    assert(!starts_stroke(release.kind));
    let stroke = drawn_stroke(first, rest);
    assert(stroke.points.len() > 0);
    assert(Seq::<StrokeView>::empty().push(stroke) =~= seq![stroke]);
}

} // verus!
