use sgraffito::app::{
    App, BufferChoice, CommandStep, KeyboardUse, KnownOutput, Mode, OutputInfo, PointerEvent,
    PointerKind, Request, SurfaceLayer, TextInputEvent, Tool, BTN_LEFT, PALETTE, PEN_WIDTH,
    PEN_WIDTH_MAX, PEN_WIDTH_MIN, TEXT_SIZE, TEXT_SIZE_MAX, TEXT_SIZE_MIN,
};
use sgraffito::canvas::{Doc, OutputAnnotations, Rect, Stroke, TextItem};
use sgraffito::geometry::PARTS;
use sgraffito::input::{
    KEY_1, KEY_5, KEY_BACKSPACE, KEY_BRACKET_LEFT, KEY_BRACKET_RIGHT, KEY_E, KEY_ESCAPE,
    KEY_KP_ENTER, KEY_LOWER_E, KEY_LOWER_P, KEY_LOWER_T, KEY_RETURN,
};
use sgraffito::region::{DamageRegion, ABGR8888, ARGB8888};

const SECOND: u64 = 1_000_000_000;

fn info(name: &str) -> Option<OutputInfo> {
    Some(OutputInfo {
        name: Some(name.into()),
        scale_factor: 1,
        logical_size: Some((1920, 1080)),
    })
}

fn px(v: i32) -> i32 {
    v * 256
}

/// A session that edits on two outputs, 1 and 2.
fn editing() -> App {
    let mut app = App::new("/tmp/annotations.json".into(), Doc::default());
    app.refresh_output(1, &info("eDP-1"));
    app.refresh_output(2, &info("HDMI-1"));
    app.configure(1, 1920, 1080);
    app.configure(2, 1920, 1080);
    app.set_mode(Mode::Edit, 0);
    app.configure(1, 1920, 1080);
    app.configure(2, 1920, 1080);
    app.take_requests();
    app
}

fn drag(app: &mut App, id: u32, points: &[[i32; 2]], now: u64) {
    app.pointer_press(id, px(points[0][0]), px(points[0][1]), now);
    for p in &points[1..] {
        app.pointer_motion(id, px(p[0]), px(p[1]));
    }
    app.pointer_release(id, now);
}

fn typed(app: &mut App, s: &str) {
    for c in s.chars() {
        app.press_key(c as u32, Some(&c.to_string()), 0);
    }
}

fn texts(app: &App, id: u32) -> Vec<String> {
    match app.annotations(id) {
        Some(a) => a.texts.iter().map(|t| t.text.clone()).collect(),
        None => vec![],
    }
}

fn strokes(app: &App, id: u32) -> usize {
    app.annotations(id).map_or(0, |a| a.strokes.len())
}

fn is_editing(app: &App) -> bool {
    app.output_ids()
        .iter()
        .any(|id| app.output(*id).unwrap().overlay.text.is_some())
}

#[test]
fn a_session_starts_locked() {
    let app = App::new("/x/annotations.json".into(), Doc::default());
    assert_eq!(app.mode(), Mode::Locked);
    assert!(!app.exiting());
    assert!(app.output_ids().is_empty());
    assert!(!app.save_due(u64::MAX));
    assert_eq!(app.annotation_path(), "/x/annotations.json");
    assert_eq!(Mode::Locked.layer(), SurfaceLayer::Background);
    assert_eq!(Mode::Edit.layer(), SurfaceLayer::Overlay);
    assert_eq!(Mode::Locked.keyboard(), KeyboardUse::Nothing);
    assert_eq!(Mode::Edit.keyboard(), KeyboardUse::Exclusive);
    assert!(Mode::Locked.click_through());
    assert!(!Mode::Edit.click_through());
}

#[test]
fn exiting_is_asked_for_once() {
    let mut app = editing();
    app.request_exit();
    assert!(app.exiting());
    assert_eq!(app.shutdown(Err("disk full".into()), 0), Err("disk full".into()));
    assert!(app.save_due(SECOND));
    assert_eq!(app.shutdown(Ok(()), 0), Ok(()));
    assert!(!app.save_due(u64::MAX));
}

#[test]
fn a_drag_becomes_a_stroke_of_the_set_colour_and_width() {
    let mut app = editing();
    app.press_key(KEY_1 + 2, None, 0);
    app.press_key(KEY_BRACKET_RIGHT, None, 0);
    drag(&mut app, 1, &[[10, 10], [12, 10], [20, 15]], 5 * SECOND);
    let a = app.annotations(1).unwrap();
    assert_eq!(
        a.strokes,
        vec![Stroke {
            color: "#33d17a".into(),
            width: 4 * 256,
            points: vec![[px(10), px(10)], [px(12), px(10)], [px(20), px(15)]],
        }]
    );
    assert!(app.annotations(2).is_none());
    assert!(!app.save_due(6 * SECOND - 1));
    assert!(app.save_due(6 * SECOND));
}

#[test]
fn jitter_is_not_sampled() {
    let mut app = editing();
    app.pointer_press(1, 0, 0, 0);
    app.pointer_motion(1, 100, 100);
    app.pointer_motion(1, 255, 0);
    app.pointer_motion(1, 256, 0);
    app.pointer_motion(1, 257, 0);
    app.pointer_release(1, 0);
    assert_eq!(
        app.annotations(1).unwrap().strokes[0].points,
        vec![[0, 0], [256, 0]]
    );
}

#[test]
fn hovering_with_no_button_held_draws_nothing() {
    let mut app = editing();
    app.tick(None, 0);
    app.pointer_motion(1, px(10), px(10));
    app.pointer_motion(1, px(50), px(50));
    assert!(app.output(1).unwrap().overlay.stroke.is_none());
    assert!(!app.tick(None, 0));
    app.press_key(KEY_LOWER_T, None, 0);
    app.tick(None, 0);
    app.pointer_motion(1, px(50), px(50));
    assert!(!app.tick(None, 0));
}

#[test]
fn a_press_finishes_the_stroke_before_it() {
    let mut app = editing();
    app.pointer_press(1, 0, 0, 0);
    app.pointer_press(2, 0, 0, SECOND);
    assert_eq!(strokes(&app, 1), 1);
    assert_eq!(strokes(&app, 2), 0);
    assert!(app.output(1).unwrap().overlay.stroke.is_none());
    assert!(app.output(1).unwrap().dirty);
    app.commit_transient_strokes(SECOND);
    assert_eq!(strokes(&app, 2), 1);
}

#[test]
fn leaving_an_output_finishes_the_stroke() {
    let mut app = editing();
    let at = |id, x, kind| PointerEvent { id, x, y: 0, kind };
    app.pointer_frame(
        &[
            at(Some(1), 0, PointerKind::Press(BTN_LEFT)),
            at(Some(1), px(5), PointerKind::Motion),
            at(None, px(6), PointerKind::Motion),
            at(Some(1), px(7), PointerKind::Press(BTN_LEFT + 1)),
            at(Some(1), px(8), PointerKind::Other),
            at(Some(1), px(9), PointerKind::Release(BTN_LEFT + 1)),
            at(Some(1), px(9), PointerKind::Leave),
            at(Some(1), px(20), PointerKind::Motion),
        ],
        0,
    );
    assert_eq!(strokes(&app, 1), 1);
    assert_eq!(
        app.annotations(1).unwrap().strokes[0].points,
        vec![[0, 0], [px(5), 0]]
    );
}

#[test]
fn the_eraser_deletes_on_release() {
    let mut app = editing();
    drag(&mut app, 1, &[[0, 100], [200, 100]], 0);
    drag(&mut app, 1, &[[0, 200], [200, 200]], 0);
    app.tick(Some(Ok(())), 0);
    app.press_key(KEY_LOWER_E, None, 0);
    app.pointer_press(1, px(50), px(300), 0);
    app.pointer_motion(1, px(50), px(101));
    assert_eq!(strokes(&app, 1), 2);
    assert_eq!(app.output(1).unwrap().overlay.eraser, Some([px(50), px(101)]));
    app.pointer_release(1, 3 * SECOND);
    assert_eq!(strokes(&app, 1), 1);
    assert_eq!(app.annotations(1).unwrap().strokes[0].points[0][1], px(200));
    assert_eq!(app.output(1).unwrap().overlay.eraser, None);
    assert!(app.save_due(4 * SECOND));
    // A release over nothing changes nothing.
    app.tick(Some(Ok(())), 4 * SECOND);
    app.pointer_press(1, px(50), px(500), 5 * SECOND);
    app.pointer_release(1, 5 * SECOND);
    assert_eq!(strokes(&app, 1), 1);
    assert!(!app.save_due(u64::MAX));
}

#[test]
fn text_is_typed_into_a_box_at_the_click() {
    let mut app = editing();
    app.press_key(KEY_LOWER_T, None, 0);
    app.press_key(KEY_5, None, 0);
    app.pointer_press(1, px(100), px(200), 0);
    typed(&mut app, "pe1[x");
    app.press_key(KEY_BACKSPACE, None, 0);
    app.press_key(KEY_RETURN, Some("\r"), 0);
    app.press_key(KEY_KP_ENTER, None, 0);
    app.press_key(0xffe1, None, 0);
    typed(&mut app, "!");
    assert!(texts(&app, 1).is_empty());
    app.press_key(KEY_ESCAPE, None, 2 * SECOND);
    assert_eq!(
        app.annotations(1).unwrap().texts,
        vec![TextItem {
            x: px(100),
            y: px(200),
            color: "#ffffff".into(),
            size: TEXT_SIZE,
            text: "pe1[\n\n!".into(),
        }]
    );
    assert!(app.save_due(3 * SECOND));
    assert_eq!(app.mode(), Mode::Edit);
    app.press_key(KEY_ESCAPE, None, 2 * SECOND);
    assert_eq!(app.mode(), Mode::Locked);
}

#[test]
fn clicking_anywhere_keeps_what_was_typed() {
    let mut app = editing();
    app.press_key(KEY_LOWER_T, None, 0);
    app.pointer_press(1, px(100), px(200), 0);
    typed(&mut app, "milk");
    app.pointer_press(2, px(5), px(5), 0);
    assert_eq!(texts(&app, 1), vec!["milk"]);
    assert!(app.output(1).unwrap().overlay.text.is_none());
    assert!(app.output(2).unwrap().overlay.text.is_some());
}

#[test]
fn empty_boxes_leave_no_trace() {
    let mut app = editing();
    app.press_key(KEY_LOWER_T, None, 0);
    app.pointer_press(1, px(100), px(200), 0);
    app.press_key(KEY_ESCAPE, None, 0);
    assert!(app.annotations(1).is_none());
    assert!(!app.save_due(u64::MAX));
}

#[test]
fn an_existing_box_is_edited_in_place() {
    let mut app = editing();
    app.press_key(KEY_LOWER_T, None, 0);
    for (y, s) in [(100, "one"), (200, "two")] {
        app.pointer_press(1, px(100), px(y), 0);
        typed(&mut app, s);
        app.press_key(KEY_ESCAPE, None, 0);
    }
    app.press_key(KEY_BRACKET_RIGHT, None, 0);
    app.press_key(KEY_5, None, 0);
    app.pointer_press(1, px(105), px(105), 0);
    assert_eq!(app.output(1).unwrap().overlay.text.as_ref().unwrap().index, Some(0));
    typed(&mut app, "!");
    app.press_key(KEY_ESCAPE, None, 0);
    let a = app.annotations(1).unwrap();
    assert_eq!(texts(&app, 1), vec!["one!", "two"]);
    assert_eq!((a.texts[0].x, a.texts[0].y), (px(100), px(100)));
    assert_eq!(a.texts[0].color, PALETTE[0]);
    assert_eq!(a.texts[0].size, TEXT_SIZE);
}

#[test]
fn an_emptied_box_is_dropped() {
    let mut app = editing();
    drag(&mut app, 1, &[[10, 10], [20, 10]], 0);
    app.press_key(KEY_LOWER_T, None, 0);
    for (y, s) in [(100, "one"), (200, "two")] {
        app.pointer_press(1, px(100), px(y), 0);
        typed(&mut app, s);
        app.press_key(KEY_ESCAPE, None, 0);
    }
    app.tick(Some(Ok(())), SECOND);
    assert!(!app.save_due(u64::MAX));
    app.pointer_press(1, px(105), px(105), SECOND);
    for _ in 0..9 {
        app.press_key(KEY_BACKSPACE, None, SECOND);
    }
    assert_eq!(texts(&app, 1), vec!["one", "two"]);
    app.press_key(KEY_ESCAPE, None, SECOND);
    assert_eq!(texts(&app, 1), vec!["two"]);
    assert_eq!(strokes(&app, 1), 1);
    assert!(!app.save_due(2 * SECOND - 1));
    assert!(app.save_due(2 * SECOND));
    // A click elsewhere ends such an edit in the same way.
    app.pointer_press(1, px(105), px(205), SECOND);
    for _ in 0..3 {
        app.press_key(KEY_BACKSPACE, None, SECOND);
    }
    app.pointer_press(2, px(500), px(500), SECOND);
    assert_eq!(texts(&app, 1), Vec::<String>::new());
}

#[test]
fn picking_another_tool_finishes_the_edit() {
    let mut app = editing();
    app.press_key(KEY_LOWER_T, None, 0);
    app.pointer_press(1, 0, 0, 0);
    typed(&mut app, "x");
    app.set_tool(Tool::Text, 0);
    assert!(is_editing(&app));
    app.set_tool(Tool::Pen, 0);
    assert!(!is_editing(&app));
    assert_eq!(texts(&app, 1), vec!["x"]);
}

#[test]
fn sizes_are_brush_settings_within_their_ranges() {
    let mut app = editing();
    drag(&mut app, 1, &[[0, 0], [5, 5]], 0);
    for _ in 0..20 {
        app.press_key(KEY_BRACKET_RIGHT, None, 0);
    }
    assert_eq!(app.output(1).unwrap().overlay.hint.unwrap().size, PEN_WIDTH_MAX);
    for _ in 0..20 {
        app.press_key(KEY_BRACKET_LEFT, None, 0);
    }
    assert_eq!(app.output(2).unwrap().overlay.hint.unwrap().size, PEN_WIDTH_MIN);
    app.press_key(KEY_LOWER_T, None, 0);
    assert_eq!(app.output(2).unwrap().overlay.hint.unwrap().size, TEXT_SIZE);
    for _ in 0..40 {
        app.press_key(KEY_BRACKET_RIGHT, None, 0);
    }
    assert_eq!(app.output(1).unwrap().overlay.hint.unwrap().size, TEXT_SIZE_MAX);
    for _ in 0..40 {
        app.press_key(KEY_BRACKET_LEFT, None, 0);
    }
    assert_eq!(app.output(1).unwrap().overlay.hint.unwrap().size, TEXT_SIZE_MIN);
    assert_eq!(app.annotations(1).unwrap().strokes[0].width, PEN_WIDTH);
    assert_eq!(
        [PEN_WIDTH_MIN, PEN_WIDTH_MAX, TEXT_SIZE_MIN, TEXT_SIZE_MAX],
        [256, 16 * 256, 8 * 256, 72 * 256]
    );
}

#[test]
fn every_output_shows_the_hint_while_editing_only() {
    let mut app = editing();
    app.press_key(KEY_E, None, 0);
    app.press_key(KEY_1 + 1, None, 0);
    for id in [1, 2] {
        let hint = app.output(id).unwrap().overlay.hint.unwrap();
        assert_eq!((hint.tool, hint.color, hint.size), ("eraser", "#f6d32d", PEN_WIDTH));
    }
    app.refresh_output(3, &info("DP-1"));
    assert_eq!(app.output(3).unwrap().overlay.hint.unwrap().tool, "eraser");
    app.set_mode(Mode::Locked, 0);
    for id in [1, 2, 3] {
        assert!(app.output(id).unwrap().overlay.hint.is_none());
    }
}

#[test]
fn locked_mode_ignores_pointer_and_keys() {
    let mut app = editing();
    app.set_mode(Mode::Locked, 0);
    app.take_requests();
    drag(&mut app, 1, &[[0, 0], [50, 50]], 0);
    for key in [KEY_LOWER_T, KEY_LOWER_P, KEY_1, KEY_BRACKET_LEFT, KEY_ESCAPE] {
        app.press_key(key, Some("x"), 0);
    }
    assert!(app.annotations(1).is_none());
    assert!(app.output(1).unwrap().overlay.stroke.is_none());
    assert_eq!(app.mode(), Mode::Locked);
    assert!(!app.save_due(u64::MAX));
    assert!(app.take_requests().is_empty());
}

#[test]
fn switching_the_mode_maps_every_surface_anew() {
    let mut app = editing();
    app.press_key(KEY_LOWER_T, None, 0);
    app.pointer_press(1, 0, 0, 0);
    typed(&mut app, "x");
    app.set_mode(Mode::Locked, 7 * SECOND);
    assert_eq!(texts(&app, 1), vec!["x"]);
    assert!(app.save_due(8 * SECOND));
    assert_eq!(
        app.take_requests(),
        vec![
            Request::CreateSurface { id: 1, mode: Mode::Locked, scale: 1 },
            Request::CreateSurface { id: 2, mode: Mode::Locked, scale: 1 },
        ]
    );
    let out = app.output(1).unwrap();
    assert!(out.configured && out.dirty);
    assert_eq!((out.width, out.height, out.name.as_str()), (0, 0, "eDP-1"));
    app.set_mode(Mode::Locked, 0);
    assert!(app.take_requests().is_empty());
}

fn reply(s: &str) -> CommandStep {
    CommandStep::Reply(s.to_string())
}

#[test]
fn commands_switch_modes() {
    let mut app = editing();
    assert_eq!(app.command("toggle", 0), reply("ok"));
    assert_eq!(app.mode(), Mode::Locked);
    assert_eq!(app.command("toggle\n", 0), reply("ok"));
    assert_eq!(app.mode(), Mode::Edit);
    assert_eq!(app.command("lock", 0), reply("ok"));
    assert_eq!(app.command("lock", 0), reply("ok"));
    assert_eq!(app.mode(), Mode::Locked);
    assert_eq!(app.command("edit", 0), reply("ok"));
    assert_eq!(app.mode(), Mode::Edit);
    assert_eq!(app.command("", 0), reply("error: empty command"));
    assert_eq!(app.command("quit", 0), reply("error: unknown command 'quit'"));
    assert_eq!(app.mode(), Mode::Edit);
}

#[test]
fn clear_erases_everything_and_writes_at_once() {
    let mut app = editing();
    drag(&mut app, 1, &[[0, 0], [5, 5]], 0);
    app.press_key(KEY_LOWER_T, None, 0);
    app.pointer_press(2, 0, 0, 0);
    typed(&mut app, "x");
    assert_eq!(app.command("clear", 0), CommandStep::Save);
    assert!(app.doc().outputs.is_empty());
    assert!(!is_editing(&app));
    assert_eq!(app.command_saved(Ok(()), 0), "ok");
    assert!(!app.save_due(u64::MAX));
    assert!(app.output(1).unwrap().dirty && app.output(2).unwrap().dirty);
    app.press_key(KEY_ESCAPE, None, 0);
    assert!(app.doc().outputs.is_empty());
    assert_eq!(app.command("clear", 0), CommandStep::Save);
    assert_eq!(app.command_saved(Err("disk full".into()), 4 * SECOND), "error: disk full");
    assert!(!app.save_due(5 * SECOND - 1));
    assert!(app.save_due(5 * SECOND));
}

#[test]
fn a_tick_writes_and_redraws_what_is_due() {
    let mut app = editing();
    assert!(app.tick(None, 0));
    assert!(!app.tick(None, 0));
    drag(&mut app, 1, &[[0, 0], [5, 5]], 0);
    assert!(app.save_due(SECOND));
    assert!(app.tick(Some(Err("disk full".into())), SECOND));
    assert!(!app.save_due(2 * SECOND - 1));
    assert!(app.save_due(2 * SECOND));
    assert!(!app.tick(Some(Ok(())), 2 * SECOND));
    assert!(!app.save_due(u64::MAX));
}

#[test]
fn outputs_come_and_go_without_losing_annotations() {
    let mut app = editing();
    drag(&mut app, 1, &[[0, 0], [5, 5]], 0);
    app.output_destroyed(1);
    app.output_destroyed(1);
    assert!(app.output(1).is_none());
    assert_eq!(app.take_requests(), vec![Request::RemoveSurface { id: 1 }]);
    assert_eq!(app.doc().get("eDP-1").unwrap().strokes.len(), 1);
    // Back under another id, the same name finds the same annotations.
    app.refresh_output(9, &info("eDP-1"));
    assert_eq!(strokes(&app, 9), 1);
    // Renamed, they stay where they were.
    app.refresh_output(9, &info("eDP-2"));
    assert!(app.annotations(9).is_none());
    assert_eq!(app.doc().get("eDP-1").unwrap().strokes.len(), 1);
    // Without a name the id stands in.
    app.refresh_output(12, &None);
    assert_eq!(app.output(12).unwrap().bucket(), "output-12");
    drag(&mut app, 12, &[[0, 0], [5, 5]], 0);
    assert!(app.doc().get("output-12").is_some());
}

#[test]
fn outputs_are_surfaced_once() {
    let mut app = App::new("x".into(), Doc::default());
    let known = |id| KnownOutput { id, info: info("eDP-1") };
    app.sync_outputs(&[known(4), known(5), known(4)]);
    app.sync_outputs(&[KnownOutput { id: 5, info: None }]);
    assert_eq!(app.output_ids(), vec![4, 5]);
    assert_eq!(
        app.take_requests(),
        vec![
            Request::CreateSurface { id: 4, mode: Mode::Locked, scale: 1 },
            Request::CreateSurface { id: 5, mode: Mode::Locked, scale: 1 },
        ]
    );
    app.closed(5);
    app.closed(77);
    assert_eq!(
        app.take_requests(),
        vec![Request::CreateSurface { id: 5, mode: Mode::Locked, scale: 1 }]
    );
}

#[test]
fn a_new_scale_drops_the_buffers_and_moves_nothing() {
    let mut app = editing();
    drag(&mut app, 1, &[[10, 10], [50, 50]], 0);
    let before = app.annotations(1).unwrap().clone();
    app.scale_factor_changed(Some(1), 2);
    assert_eq!(
        app.take_requests(),
        vec![Request::SetBufferScale { id: 1, scale: 2 }, Request::DropBuffers { id: 1 }]
    );
    assert_eq!(app.annotations(1), Some(&before));
    assert_eq!(app.prepare_output(1), Some((3840, 2160)));
    app.scale_factor_changed(Some(1), 2);
    assert_eq!(app.take_requests(), vec![Request::DropBuffers { id: 1 }]);
    app.scale_factor_changed(Some(1), -3);
    assert_eq!(app.output(1).unwrap().scale, 1);
    app.scale_factor_changed(None, 4);
    assert_eq!(app.output(1).unwrap().scale, 1);
    // The output's own scale comes back with a new surface.
    app.scale_factor_changed(Some(1), 3);
    app.set_mode(Mode::Locked, 0);
    assert_eq!(app.output(1).unwrap().scale, 1);
}

#[test]
fn a_surface_is_drawn_once_it_is_configured() {
    let mut app = App::new("x".into(), Doc::default());
    app.refresh_output(1, &Some(OutputInfo { name: None, scale_factor: 0, logical_size: None }));
    assert_eq!(app.output(1).unwrap().scale, 1);
    assert_eq!(app.prepare_output(1), None);
    app.configure(1, 0, 0);
    assert_eq!(app.prepare_output(1), None);
    app.take_requests();
    app.configure(1, 800, 600);
    assert_eq!(app.prepare_output(1), Some((800, 600)));
    assert_eq!(
        app.take_requests(),
        vec![Request::DropBuffers { id: 1 }, Request::DropBuffers { id: 1 }]
    );
    app.configure(1, 800, 600);
    assert_eq!(app.prepare_output(1), Some((800, 600)));
    assert!(app.take_requests().is_empty());
    assert_eq!(app.prepare_output(7), None);
    app.configure(1, u32::MAX, 5);
    app.scale_factor_changed(Some(1), 3);
    assert_eq!(app.prepare_output(1), Some((u32::MAX, 15)));
}

#[test]
fn the_buffer_format_is_decided_once() {
    let mut app = App::new("x".into(), Doc::default());
    assert_eq!(app.shm_format(&[ARGB8888, 1]), (ARGB8888, true));
    assert_eq!(app.shm_format(&[ABGR8888]), (ARGB8888, true));
    let mut app = App::new("x".into(), Doc::default());
    assert_eq!(app.shm_format(&[ARGB8888, ABGR8888]), (ABGR8888, false));
    assert_eq!(app.shm_format(&[]), (ABGR8888, false));
}

#[test]
fn buffers_are_reused_before_they_are_added() {
    let mut app = editing();
    assert_eq!(app.choose_buffer(1, &[]), BufferChoice::Allocate);
    app.compose_frame(1, 0).unwrap();
    assert_eq!(app.choose_buffer(1, &[true]), BufferChoice::Use(0));
    assert_eq!(app.choose_buffer(1, &[false]), BufferChoice::Allocate);
    app.compose_frame(1, 1);
    assert_eq!(app.choose_buffer(1, &[true, true]), BufferChoice::Use(1));
    assert_eq!(app.choose_buffer(1, &[true, false]), BufferChoice::Use(0));
    app.tick(None, 0);
    assert_eq!(app.choose_buffer(1, &[false, false]), BufferChoice::Wait);
    assert!(app.output(1).unwrap().dirty);
    assert!(app.tick(None, 0));
}

#[test]
fn only_a_drag_on_the_previous_frame_is_boxed() {
    let mut app = editing();
    app.prepare_output(1);
    app.pointer_press(1, px(500), px(500), 0);
    let whole = app.compose_frame(1, 0).unwrap();
    assert_eq!((whole.width, whole.height, whole.scale), (1920, 1080, 1));
    assert_eq!((whole.damage, whole.region), (None, DamageRegion::All));
    // Nothing changed.
    assert_eq!(app.compose_frame(1, 0), None);
    // The stroke grew: its box as it was and as it is, each 1.5 + 1 pixels around the samples.
    app.pointer_motion(1, px(510), px(500));
    let boxed = app.compose_frame(1, 0).unwrap();
    let (at, edge): (i128, i128) = (px(500) as i128 * PARTS, 640 * PARTS);
    let expected = Rect { x: at - edge, y: at - edge, w: 2560 * PARTS + 2 * edge, h: 2 * edge };
    assert_eq!(boxed.damage, Some(expected));
    assert_eq!(boxed.region, DamageRegion::Rect { x0: 497, y0: 497, x1: 512, y1: 502 });
    // On another buffer everything is older.
    app.pointer_motion(1, px(520), px(500));
    assert_eq!(app.compose_frame(1, 1).unwrap().damage, None);
    // A text edit is repainted whole.
    app.pointer_release(1, 0);
    app.press_key(KEY_LOWER_T, None, 0);
    app.pointer_press(1, px(5), px(5), 0);
    app.compose_frame(1, 1).unwrap();
    assert_eq!(app.compose_frame(1, 1).unwrap().damage, None);
}

#[test]
fn a_drag_across_a_stroke_repaints_it_whole() {
    let mut app = editing();
    drag(&mut app, 1, &[[100, 500], [900, 500]], 0);
    app.pointer_press(1, px(300), px(400), 0);
    app.compose_frame(1, 0).unwrap();
    app.pointer_motion(1, px(300), px(600));
    let d = app.compose_frame(1, 0).unwrap().damage.unwrap();
    let parts = |units: i32| units as i128 * PARTS;
    assert_eq!((d.x, d.x + d.w), (parts(px(100) - 640), parts(px(900) + 640)));
    assert_eq!((d.y, d.y + d.h), (parts(px(400) - 640), parts(px(600) + 640)));
}

#[test]
fn the_input_method_is_told_of_the_text_box() {
    let mut app = editing();
    app.text_input_bound();
    app.enter(Some(1), 0);
    app.press_key(KEY_LOWER_T, None, 0);
    assert!(app.take_requests().is_empty());
    app.pointer_press(1, 0, 0, 0);
    let update = |enable, text: &str| Request::UpdateTextInput {
        enable,
        text: text.to_string(),
        cursor: text.len(),
    };
    assert_eq!(app.take_requests(), vec![update(true, "")]);
    typed(&mut app, "买");
    assert_eq!(app.take_requests(), vec![update(false, "买")]);
    app.press_key(KEY_ESCAPE, None, 0);
    assert_eq!(app.take_requests(), vec![Request::DisableTextInput]);
    app.press_key(KEY_BRACKET_LEFT, None, 0);
    assert!(app.take_requests().is_empty());
}

#[test]
fn input_method_batches_are_applied_when_they_are_done() {
    let mut app = editing();
    app.press_key(KEY_LOWER_T, None, 0);
    app.pointer_press(1, 0, 0, 0);
    typed(&mut app, "ab");
    let edit = |app: &App| {
        let t = app.output(1).unwrap().overlay.text.as_ref().unwrap();
        (t.buffer.text.clone(), t.preedit.clone())
    };
    app.text_input_event(TextInputEvent::Preedit(Some("ni".into())));
    assert_eq!(edit(&app), ("ab".into(), "".into()));
    app.text_input_event(TextInputEvent::Done);
    assert_eq!(edit(&app), ("ab".into(), "ni".into()));
    // The input method owns every key but Escape now.
    app.press_key(KEY_BACKSPACE, None, 0);
    app.press_key(KEY_RETURN, None, 0);
    typed(&mut app, "z");
    assert_eq!(edit(&app), ("ab".into(), "ni".into()));
    // A batch without a preedit ends it.
    app.text_input_event(TextInputEvent::Commit(Some("你".into())));
    app.text_input_event(TextInputEvent::Commit(None));
    app.text_input_event(TextInputEvent::Commit(Some("!".into())));
    app.text_input_event(TextInputEvent::Other);
    app.text_input_event(TextInputEvent::Done);
    assert_eq!(edit(&app), ("ab你!".into(), "".into()));
    // Deleting counts bytes, and those of the preedit are not in the text.
    app.text_input_event(TextInputEvent::DeleteSurrounding { before: 6, after: 2 });
    app.text_input_event(TextInputEvent::Preedit(Some("xy".into())));
    app.text_input_event(TextInputEvent::Commit(Some("c".into())));
    app.text_input_event(TextInputEvent::Done);
    assert_eq!(edit(&app), ("abc".into(), "xy".into()));
    // What was not finished is not kept.
    app.press_key(KEY_ESCAPE, None, 0);
    assert_eq!(texts(&app, 1), vec!["abc"]);
}

#[test]
fn a_batch_without_a_text_box_is_dropped() {
    let mut app = editing();
    app.text_input_event(TextInputEvent::Commit(Some("lost".into())));
    app.text_input_event(TextInputEvent::Done);
    app.press_key(KEY_LOWER_T, None, 0);
    app.pointer_press(1, 0, 0, 0);
    app.text_input_event(TextInputEvent::Commit(Some("lost".into())));
    app.text_input_event(TextInputEvent::Leave);
    app.text_input_event(TextInputEvent::Done);
    typed(&mut app, "kept");
    app.press_key(KEY_ESCAPE, None, 0);
    assert_eq!(texts(&app, 1), vec!["kept"]);
}

#[test]
fn a_change_of_focus_finishes_the_edit() {
    let mut app = editing();
    app.text_input_bound();
    app.enter(Some(1), 0);
    app.press_key(KEY_LOWER_T, None, 0);
    app.pointer_press(1, 0, 0, 0);
    typed(&mut app, "one");
    app.enter(Some(1), 0);
    assert!(is_editing(&app));
    app.leave(Some(2), 0);
    assert!(is_editing(&app));
    app.enter(Some(2), 0);
    assert!(!is_editing(&app));
    assert_eq!(texts(&app, 1), vec!["one"]);
    app.pointer_press(2, 0, 0, 0);
    typed(&mut app, "two");
    app.leave(Some(2), 0);
    assert_eq!(texts(&app, 2), vec!["two"]);
    app.text_input_event(TextInputEvent::Enter);
    let last = app.take_requests().pop();
    assert_eq!(last, Some(Request::DisableTextInput));
}

#[test]
fn annotations_that_were_loaded_are_shown_and_erased() {
    let mut doc = Doc::default();
    doc.insert(
        "eDP-1",
        OutputAnnotations {
            strokes: vec![],
            texts: vec![TextItem {
                x: 0,
                y: 0,
                color: "#ffffff".into(),
                size: TEXT_SIZE,
                text: "old".into(),
            }],
        },
    );
    let mut app = App::new("x".into(), doc);
    app.refresh_output(1, &info("eDP-1"));
    assert_eq!(texts(&app, 1), vec!["old"]);
    app.set_mode(Mode::Edit, 0);
    app.set_tool(Tool::Eraser, 0);
    app.pointer_press(1, px(3), px(3), 0);
    app.pointer_release(1, 0);
    assert!(texts(&app, 1).is_empty());
    assert!(app.annotations(1).is_some());
}

#[test]
fn later_changes_do_not_put_a_write_off() {
    let mut app = editing();
    drag(&mut app, 1, &[[10, 10], [20, 10]], SECOND);
    drag(&mut app, 1, &[[10, 30], [20, 30]], SECOND + SECOND / 2);
    app.enter(Some(2), SECOND + SECOND / 2);
    app.set_mode(Mode::Locked, 2 * SECOND - 1);
    assert!(!app.save_due(2 * SECOND - 1));
    assert!(app.save_due(2 * SECOND));
    app.tick(Some(Ok(())), 2 * SECOND);
    assert!(!app.save_due(u64::MAX));
}

#[test]
fn whatever_is_no_drag_repaints_the_whole_surface() {
    let changes: [fn(&mut App); 6] = [
        |app| app.pointer_press(1, 0, 0, 0),
        |app| app.pointer_release(1, 0),
        |app| app.press_key(KEY_5, None, 0),
        |app| app.press_key(KEY_BRACKET_LEFT, None, 0),
        |app| app.press_key(KEY_LOWER_E, None, 0),
        |app| app.scale_factor_changed(Some(1), 2),
    ];
    for change in changes {
        let mut app = editing();
        app.prepare_output(1);
        assert!(app.compose_frame(1, 0).is_some());
        assert!(app.compose_frame(1, 0).is_none());
        change(&mut app);
        let frame = app.compose_frame(1, 0).unwrap();
        assert_eq!(frame.damage, None);
        assert_eq!(frame.region, DamageRegion::All);
    }
}
