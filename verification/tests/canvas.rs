use sway_draw::draw::{render_stroke, LineCap, LineJoin, PathStep};
use sway_draw::pixels::swap_red_blue;
use sway_draw::state::{
    clip_damage, merge_damage, AppState, PointerInput, PointerKind, SizeError, DRAW_BUTTON,
    ESCAPE_KEY,
};
use sway_draw::types::{Color, Point, Rect, Stroke};

fn px(x: i32, y: i32) -> Point {
    Point { x: x * 256, y: y * 256 }
}

fn rect(x: i32, y: i32, w: u32, h: u32) -> Rect {
    Rect { x, y, w, h }
}

fn event(kind: PointerKind, x: i32, y: i32) -> PointerInput {
    PointerInput { position: px(x, y), kind }
}

fn bake(state: &mut AppState, stroke: &Stroke) {
    let painting = render_stroke(stroke);
    let mut pb = tiny_skia::PathBuilder::new();
    for step in &painting.path {
        match *step {
            PathStep::MoveTo { x, y } => pb.move_to(x as f32 / 65536.0, y as f32 / 65536.0),
            PathStep::LineTo { x, y } => pb.line_to(x as f32 / 65536.0, y as f32 / 65536.0),
            PathStep::Close => pb.close(),
        }
    }
    if let Some(path) = pb.finish() {
        let style = painting.style;
        assert_eq!(style.line_cap, LineCap::Round);
        assert_eq!(style.line_join, LineJoin::Round);
        let mut paint = tiny_skia::Paint::default();
        let c = style.color;
        paint.set_color(tiny_skia::Color::from_rgba8(c.r, c.g, c.b, c.a));
        let opts = tiny_skia::Stroke {
            width: style.width as f32 / 256.0,
            line_cap: tiny_skia::LineCap::Round,
            line_join: tiny_skia::LineJoin::Round,
            ..Default::default()
        };
        state.completed_canvas.as_mut().stroke_path(
            &path,
            &paint,
            &opts,
            tiny_skia::Transform::identity(),
            None,
        );
    }
}

fn fresh(width: u32, height: u32) -> AppState {
    match AppState::new(width, height) {
        Ok(s) => s,
        Err(_) => panic!("a state of {}x{}", width, height),
    }
}

/// A state with its first frame drawn and acknowledged.
fn settled(width: u32, height: u32) -> AppState {
    let mut s = fresh(width, height);
    assert_eq!(s.configure(width, height).ok(), Some(true));
    let mut buffer = vec![0u8; (width * height * 4) as usize];
    assert_eq!(s.draw(&mut buffer), Some(rect(0, 0, width, height)));
    assert!(!s.frame());
    s
}

#[test]
fn a_new_state_is_blank_and_wholly_damaged() {
    let s = fresh(64, 48);
    assert!(s.is_well_formed());
    assert_eq!(s.width, 64);
    assert_eq!(s.height, 48);
    assert_eq!(s.completed_canvas.width(), 64);
    assert_eq!(s.completed_canvas.height(), 48);
    assert_eq!(s.completed_canvas.data().len(), 64 * 48 * 4);
    assert!(s.completed_canvas.data().iter().all(|b| *b == 0));
    assert_eq!(s.pending_damage, Some(rect(0, 0, 64, 48)));
    assert_eq!(s.last_active_stroke_rect, None);
    assert!(s.active_stroke.is_none());
    assert!(s.first_configure);
    assert!(s.needs_redraw);
    assert!(!s.frame_pending);
    assert!(!s.exit);
}

#[test]
fn a_state_of_no_size_is_refused() {
    assert_eq!(AppState::new(0, 10).err(), Some(SizeError::Unsupported));
    assert_eq!(AppState::new(10, 0).err(), Some(SizeError::Unsupported));
    assert_eq!(AppState::new(0x2000_0000, 1).err(), Some(SizeError::Unsupported));
    assert_eq!(AppState::new(1, 0x8000_0000).err(), Some(SizeError::Unsupported));
    assert!(AppState::new(1, 1).is_ok());
}

#[test]
fn resize_clears_the_canvas_and_damages_all_of_it() {
    let mut s = settled(800, 600);
    s.completed_canvas.fill(tiny_skia::Color::from_rgba8(9, 8, 7, 255));
    assert!(s.completed_canvas.data().iter().any(|b| *b != 0));
    assert_eq!(s.pending_damage, None);
    assert!(!s.needs_redraw);
    assert_eq!(s.configure(1024, 768).ok(), Some(true));
    assert!(s.needs_redraw);
    assert_eq!(s.width, 1024);
    assert_eq!(s.height, 768);
    assert_eq!(s.completed_canvas.width(), 1024);
    assert_eq!(s.completed_canvas.height(), 768);
    assert_eq!(s.completed_canvas.data().len(), 1024 * 768 * 4);
    assert!(s.completed_canvas.data().iter().all(|b| *b == 0));
    assert_eq!(s.pending_damage, Some(rect(0, 0, 1024, 768)));
    assert!(s.is_well_formed());
}

#[test]
fn configure_of_the_same_size_keeps_the_canvas() {
    let mut s = settled(40, 30);
    s.completed_canvas.fill(tiny_skia::Color::from_rgba8(9, 8, 7, 255));
    let before = s.completed_canvas.data().to_vec();
    assert_eq!(s.configure(40, 30).ok(), Some(false));
    assert_eq!(s.completed_canvas.data(), &before[..]);
    assert_eq!(s.pending_damage, None);
    assert!(!s.needs_redraw);
}

#[test]
fn configure_without_a_size_takes_the_fallback() {
    let mut s = fresh(40, 30);
    assert_eq!(s.configure(0, 0).ok(), Some(true));
    assert_eq!((s.width, s.height), (256, 256));
    assert_eq!(s.pending_damage, Some(rect(0, 0, 256, 256)));
    assert_eq!(s.configure(0, 100).ok(), Some(true));
    assert_eq!((s.width, s.height), (256, 100));
    assert_eq!(s.pending_damage, Some(rect(0, 0, 256, 100)));
}

#[test]
fn first_configure_asks_for_a_draw_once() {
    let mut s = fresh(40, 30);
    s.needs_redraw = false;
    assert_eq!(s.configure(40, 30).ok(), Some(true));
    assert!(!s.first_configure);
    assert!(s.needs_redraw);
    assert_eq!(s.configure(40, 30).ok(), Some(false));
}

#[test]
fn first_configure_waits_for_a_frame_under_way() {
    let mut s = fresh(40, 30);
    s.frame_pending = true;
    assert_eq!(s.configure(40, 30).ok(), Some(false));
    assert!(s.needs_redraw);
    assert!(s.frame());
    assert!(!s.frame_pending);
}

#[test]
fn a_resize_asks_for_a_redraw_of_the_whole_surface() {
    let mut s = settled(40, 30);
    assert_eq!(s.configure(50, 20).ok(), Some(true));
    assert!(s.needs_redraw);
    assert!(!s.first_configure);
    let mut buffer = vec![0x77u8; 50 * 20 * 4];
    assert_eq!(s.draw(&mut buffer), Some(rect(0, 0, 50, 20)));
    assert!(buffer.iter().all(|b| *b == 0));
    assert!(s.frame_pending);
    assert!(!s.needs_redraw);
}

#[test]
fn a_resize_waits_for_a_frame_under_way() {
    let mut s = settled(40, 30);
    s.frame_pending = true;
    assert_eq!(s.configure(50, 20).ok(), Some(false));
    assert!(s.needs_redraw);
    assert_eq!(s.pending_damage, Some(rect(0, 0, 50, 20)));
    assert!(s.frame());
}

#[test]
fn configure_of_an_unsupported_size_changes_nothing() {
    let mut s = settled(40, 30);
    assert_eq!(s.configure(0x2000_0000, 30).err(), Some(SizeError::Unsupported));
    assert_eq!((s.width, s.height), (40, 30));
    assert_eq!(s.pending_damage, None);
    assert_eq!(s.completed_canvas.data().len(), 40 * 30 * 4);
}

#[test]
fn first_frame_repaints_everything() {
    let mut s = fresh(16, 8);
    s.completed_canvas.fill(tiny_skia::Color::from_rgba8(1, 2, 3, 255));
    let mut buffer = vec![0xeeu8; 16 * 8 * 4];
    assert_eq!(s.draw(&mut buffer), Some(rect(0, 0, 16, 8)));
    assert_eq!(&buffer[..], s.completed_canvas.data());
    assert_eq!(&buffer[..4], &[1u8, 2, 3, 255][..]);
    assert!(s.frame_pending);
    assert!(!s.needs_redraw);
    assert_eq!(s.pending_damage, None);
    assert_eq!(s.last_active_stroke_rect, None);
}

#[test]
fn idle_draw_cycle_is_skipped() {
    let mut s = settled(32, 32);
    assert_eq!(s.pending_damage, None);
    assert!(s.active_stroke.is_none());
    assert_eq!(s.last_active_stroke_rect, None);
    let before = vec![0x55u8; 32 * 32 * 4];
    let mut buffer = before.clone();
    assert_eq!(s.draw(&mut buffer), None);
    assert!(!s.frame_pending);
    assert_eq!(buffer, before);
    s.needs_redraw = true;
    assert_eq!(s.draw(&mut buffer), None);
    assert!(s.needs_redraw);
    assert!(!s.frame_pending);
}

#[test]
fn damage_off_the_surface_is_skipped() {
    let mut s = settled(32, 32);
    s.pending_damage = Some(rect(40, 40, 10, 10));
    let mut buffer = vec![0u8; 32 * 32 * 4];
    assert_eq!(s.draw(&mut buffer), None);
    assert_eq!(s.pending_damage, None);
    assert!(!s.frame_pending);
}

#[test]
fn press_motion_release_commits_the_stroke() {
    let mut s = settled(64, 32);
    let out = s.pointer_event(&event(PointerKind::Press { button: DRAW_BUTTON }, 10, 10));
    assert!(out.redraw);
    assert!(out.committed.is_none());
    let out = s.pointer_event(&event(PointerKind::Motion, 20, 10));
    assert!(out.redraw);
    let out = s.pointer_event(&event(PointerKind::Motion, 30, 10));
    assert!(out.redraw);
    {
        let active = s.active_stroke.as_ref().unwrap();
        assert_eq!(active.points, vec![px(10, 10), px(20, 10), px(30, 10)]);
        assert_eq!(active.color, Color { r: 255, g: 0, b: 0, a: 255 });
        assert_eq!(active.thickness, 1024);
    }
    let out = s.pointer_event(&event(PointerKind::Release { button: DRAW_BUTTON }, 30, 10));
    assert!(out.redraw);
    assert!(s.active_stroke.is_none());
    assert!(s.needs_redraw);
    assert_eq!(s.pending_damage, Some(rect(6, 6, 28, 8)));
    let stroke = out.committed.unwrap();
    assert_eq!(stroke.points, vec![px(10, 10), px(20, 10), px(30, 10)]);
    bake(&mut s, &stroke);

    let data = s.completed_canvas.data();
    for x in 10..30usize {
        let i = (10 * 64 + x) * 4;
        assert_eq!(&data[i..i + 4], &[255u8, 0, 0, 255][..], "column {}", x);
    }
    // Nothing was painted outside the reported damage.
    for y in 0..32usize {
        for x in 0..64usize {
            let inside = (6..34).contains(&x) && (6..14).contains(&y);
            let i = (y * 64 + x) * 4;
            if !inside {
                assert_eq!(&data[i..i + 4], &[0u8, 0, 0, 0][..]);
            }
        }
    }

    // The frame after repaints exactly the damage, with red and blue
    // exchanged once the channels are swapped.
    let mut buffer = vec![0u8; 64 * 32 * 4];
    let dirty = s.draw(&mut buffer);
    assert_eq!(dirty, Some(rect(6, 6, 28, 8)));
    swap_red_blue(&mut buffer, 64, 32, &rect(6, 6, 28, 8));
    let i = (10 * 64 + 20) * 4;
    assert_eq!(&buffer[i..i + 4], &[0u8, 0, 255, 255][..]);
    assert!(s.frame_pending);
    assert!(!s.needs_redraw);
}

#[test]
fn release_alone_asks_for_a_draw() {
    let mut s = settled(64, 32);
    let a = s.pointer_event(&event(PointerKind::Press { button: DRAW_BUTTON }, 10, 10));
    assert!(s.pointer_frame_done(a.redraw));
    assert!(s.needs_redraw);
    let mut buffer = vec![0u8; 64 * 32 * 4];
    assert_eq!(s.draw(&mut buffer), Some(rect(6, 6, 8, 8)));
    assert_eq!(s.last_active_stroke_rect, Some(rect(6, 6, 8, 8)));
    assert!(!s.frame());
    let b = s.pointer_event(&event(PointerKind::Release { button: DRAW_BUTTON }, 10, 10));
    assert!(b.redraw);
    assert!(s.pointer_frame_done(b.redraw));
    assert!(s.needs_redraw);
}

#[test]
fn a_lone_release_leads_to_a_frame() {
    for kind in [PointerKind::Release { button: DRAW_BUTTON }, PointerKind::Leave] {
        let mut s = settled(64, 32);
        s.active_stroke = Some(Stroke {
            points: vec![px(10, 10), px(20, 10)],
            color: Color { r: 255, g: 0, b: 0, a: 255 },
            thickness: 1024,
        });
        let out = s.pointer_frame(&[event(kind, 20, 10)]);
        assert!(out.draw_now);
        assert_eq!(out.committed.len(), 1);
        bake(&mut s, &out.committed[0]);
        let mut buffer = vec![0u8; 64 * 32 * 4];
        assert_eq!(s.draw(&mut buffer), Some(rect(6, 6, 18, 8)));
        assert!(s.frame_pending);
        assert!(!s.needs_redraw);
        let i = (10 * 64 + 15) * 4;
        assert_eq!(&buffer[i..i + 4], &[255u8, 0, 0, 255][..]);
    }
}

#[test]
fn a_lone_release_waits_for_a_frame_under_way() {
    let mut s = settled(64, 32);
    s.pointer_event(&event(PointerKind::Press { button: DRAW_BUTTON }, 10, 10));
    s.frame_pending = true;
    let out = s.pointer_frame(&[event(PointerKind::Release { button: DRAW_BUTTON }, 10, 10)]);
    assert!(!out.draw_now);
    assert!(s.needs_redraw);
    assert!(s.frame());
}

#[test]
fn pointer_frame_waits_for_a_frame_under_way() {
    let mut s = settled(64, 32);
    s.frame_pending = true;
    assert!(!s.pointer_frame_done(true));
    assert!(s.needs_redraw);
    assert!(s.frame());
    assert!(s.pointer_frame_done(true));
    let mut t = settled(64, 32);
    assert!(!t.pointer_frame_done(false));
    assert!(!t.needs_redraw);
}

#[test]
fn leaving_commits_the_stroke() {
    let mut s = settled(64, 32);
    s.pointer_event(&event(PointerKind::Press { button: DRAW_BUTTON }, 40, 20));
    s.pointer_event(&event(PointerKind::Motion, 50, 25));
    let out = s.pointer_event(&event(PointerKind::Leave, 0, 0));
    assert!(out.redraw);
    assert_eq!(out.committed.unwrap().points, vec![px(40, 20), px(50, 25)]);
    assert!(s.active_stroke.is_none());
    assert_eq!(s.pending_damage, Some(rect(36, 16, 18, 13)));
    assert!(s.needs_redraw);
}

#[test]
fn finished_strokes_add_to_the_damage() {
    let mut s = settled(64, 32);
    s.pointer_event(&event(PointerKind::Press { button: DRAW_BUTTON }, 10, 10));
    s.pointer_event(&event(PointerKind::Release { button: DRAW_BUTTON }, 10, 10));
    assert_eq!(s.pending_damage, Some(rect(6, 6, 8, 8)));
    s.pointer_event(&event(PointerKind::Press { button: DRAW_BUTTON }, 50, 20));
    s.pointer_event(&event(PointerKind::Leave, 50, 20));
    assert_eq!(s.pending_damage, Some(rect(6, 6, 48, 18)));
}

#[test]
fn other_events_change_nothing() {
    let mut s = settled(64, 32);
    for kind in [
        PointerKind::Enter,
        PointerKind::Axis,
        PointerKind::Motion,
        PointerKind::Leave,
        PointerKind::Press { button: 273 },
        PointerKind::Release { button: 273 },
        PointerKind::Release { button: DRAW_BUTTON },
    ] {
        let out = s.pointer_event(&event(kind, 5, 5));
        assert!(!out.redraw);
        assert!(out.committed.is_none());
        assert!(s.active_stroke.is_none());
        assert_eq!(s.pending_damage, None);
        assert!(!s.needs_redraw);
    }
    s.pointer_event(&event(PointerKind::Press { button: DRAW_BUTTON }, 5, 5));
    let out = s.pointer_event(&event(PointerKind::Release { button: 273 }, 5, 5));
    assert!(out.committed.is_none());
    assert!(s.active_stroke.is_some());
}

#[test]
fn an_active_stroke_without_points_is_dropped() {
    let mut s = settled(64, 32);
    s.active_stroke =
        Some(Stroke { points: vec![], color: Color { r: 1, g: 2, b: 3, a: 4 }, thickness: 256 });
    let out = s.pointer_event(&event(PointerKind::Leave, 0, 0));
    assert!(out.committed.is_none());
    assert!(out.redraw);
    assert!(s.active_stroke.is_none());
    assert_eq!(s.pending_damage, None);
    assert!(s.needs_redraw);
}

#[test]
fn the_frame_covers_the_stroke_now_and_as_last_drawn() {
    let mut s = settled(64, 32);
    s.pointer_event(&event(PointerKind::Press { button: DRAW_BUTTON }, 10, 10));
    let mut buffer = vec![0u8; 64 * 32 * 4];
    assert_eq!(s.draw(&mut buffer), Some(rect(6, 6, 8, 8)));
    s.frame();
    s.pointer_event(&event(PointerKind::Motion, 20, 12));
    assert_eq!(s.draw(&mut buffer), Some(rect(6, 6, 18, 10)));
    assert_eq!(s.last_active_stroke_rect, Some(rect(6, 6, 18, 10)));
    s.frame();
    // The stroke is abandoned: the frame after erases where it was.
    s.active_stroke = None;
    s.pending_damage = Some(rect(40, 20, 2, 2));
    assert_eq!(s.draw(&mut buffer), Some(rect(6, 6, 36, 16)));
    assert_eq!(s.last_active_stroke_rect, None);
}

#[test]
fn the_dirty_rectangle_is_clipped_to_the_surface() {
    let mut s = settled(64, 32);
    s.pointer_event(&event(PointerKind::Press { button: DRAW_BUTTON }, 1, 30));
    s.pointer_event(&event(PointerKind::Motion, 70, 40));
    let mut buffer = vec![0u8; 64 * 32 * 4];
    assert_eq!(s.draw(&mut buffer), Some(rect(0, 26, 64, 6)));
    // The record of the stroke's box is not clipped.
    assert_eq!(s.last_active_stroke_rect, Some(rect(-3, 26, 77, 18)));
}

#[test]
fn draw_restores_only_the_dirty_pixels() {
    let mut s = settled(8, 8);
    s.completed_canvas.fill(tiny_skia::Color::from_rgba8(10, 20, 30, 255));
    s.pending_damage = Some(rect(2, 3, 4, 2));
    let mut buffer = vec![0xabu8; 8 * 8 * 4];
    assert_eq!(s.draw(&mut buffer), Some(rect(2, 3, 4, 2)));
    for y in 0..8usize {
        for x in 0..8usize {
            let i = (y * 8 + x) * 4;
            if (2..6).contains(&x) && (3..5).contains(&y) {
                assert_eq!(&buffer[i..i + 4], &[10u8, 20, 30, 255][..]);
            } else {
                assert_eq!(&buffer[i..i + 4], &[0xabu8; 4][..]);
            }
        }
    }
}

#[test]
fn acknowledgement_allows_the_next_frame() {
    let mut s = fresh(8, 8);
    let mut buffer = vec![0u8; 8 * 8 * 4];
    assert!(s.draw(&mut buffer).is_some());
    assert!(s.frame_pending);
    s.needs_redraw = true;
    assert!(s.frame());
    assert!(!s.frame_pending);
    s.needs_redraw = false;
    assert!(!s.frame());
}

#[test]
fn escape_asks_to_exit() {
    let mut s = fresh(8, 8);
    s.press_key(0x61);
    assert!(!s.exit);
    s.press_key(ESCAPE_KEY);
    assert!(s.exit);
    s.press_key(0x61);
    assert!(s.exit);
}

#[test]
fn merging_damage() {
    assert_eq!(merge_damage(None, None), None);
    assert_eq!(merge_damage(Some(rect(1, 2, 3, 4)), None), Some(rect(1, 2, 3, 4)));
    assert_eq!(merge_damage(None, Some(rect(1, 2, 3, 4))), Some(rect(1, 2, 3, 4)));
    assert_eq!(
        merge_damage(Some(rect(1, 2, 3, 4)), Some(rect(10, 0, 1, 1))),
        Some(rect(1, 0, 10, 6))
    );
}

#[test]
fn clipping_damage() {
    assert_eq!(clip_damage(None, 10, 10), None);
    assert_eq!(clip_damage(Some(rect(-5, -5, 8, 30)), 10, 10), Some(rect(0, 0, 3, 10)));
    assert_eq!(clip_damage(Some(rect(10, 0, 5, 5)), 10, 10), None);
    assert_eq!(clip_damage(Some(rect(2, 2, 0, 5)), 10, 10), None);
}

#[test]
fn a_state_with_a_canvas_of_another_size_is_not_well_formed() {
    let mut s = fresh(8, 8);
    assert!(s.is_well_formed());
    s.width = 9;
    assert!(!s.is_well_formed());
    s.width = 8;
    s.pending_damage = Some(rect(i32::MIN, 0, 1, 1));
    assert!(!s.is_well_formed());
}

#[test]
fn a_batch_of_events_draws_and_commits_a_stroke() {
    let mut s = settled(64, 32);
    let out = s.pointer_frame(&[
        event(PointerKind::Enter, 10, 10),
        event(PointerKind::Press { button: DRAW_BUTTON }, 10, 10),
        event(PointerKind::Motion, 20, 10),
        event(PointerKind::Motion, 30, 10),
        event(PointerKind::Release { button: DRAW_BUTTON }, 30, 10),
    ]);
    assert!(out.draw_now);
    assert_eq!(out.committed.len(), 1);
    assert_eq!(out.committed[0].points, vec![px(10, 10), px(20, 10), px(30, 10)]);
    assert_eq!(out.committed[0].thickness, 1024);
    assert!(s.active_stroke.is_none());
    assert!(s.needs_redraw);
    assert_eq!(s.pending_damage, Some(rect(6, 6, 28, 8)));
}

#[test]
fn a_batch_commits_its_strokes_in_order() {
    let mut s = settled(64, 32);
    s.frame_pending = true;
    let out = s.pointer_frame(&[
        event(PointerKind::Press { button: DRAW_BUTTON }, 10, 10),
        event(PointerKind::Leave, 0, 0),
        event(PointerKind::Press { button: DRAW_BUTTON }, 50, 20),
        event(PointerKind::Motion, 51, 20),
        event(PointerKind::Release { button: DRAW_BUTTON }, 51, 20),
        event(PointerKind::Press { button: DRAW_BUTTON }, 5, 5),
    ]);
    assert!(!out.draw_now);
    assert_eq!(out.committed.len(), 2);
    assert_eq!(out.committed[0].points, vec![px(10, 10)]);
    assert_eq!(out.committed[1].points, vec![px(50, 20), px(51, 20)]);
    assert_eq!(s.active_stroke.as_ref().unwrap().points, vec![px(5, 5)]);
    assert_eq!(s.pending_damage, Some(rect(6, 6, 49, 18)));
    assert!(s.needs_redraw);
    assert!(s.frame_pending);
}

#[test]
fn an_empty_batch_changes_nothing() {
    let mut s = settled(64, 32);
    let out = s.pointer_frame(&[]);
    assert!(!out.draw_now);
    assert!(out.committed.is_empty());
    assert!(!s.needs_redraw);
    assert_eq!(s.pending_damage, None);
    let out = s.pointer_frame(&[event(PointerKind::Release { button: DRAW_BUTTON }, 1, 1)]);
    assert!(!out.draw_now);
    assert!(!s.needs_redraw);
}
