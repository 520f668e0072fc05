use wtfis::frame::{
    compose_frame, input_label, render_frame, result_start, viewport_height, Body, FrameView,
};
use wtfis::path::ProjectPath;
use wtfis::picker::{recent_results, Input, Picker, Step, DOUBLE_CLICK};
use wtfis::screen::{split_rows, Area, Sections};
use wtfis::session::{
    after_setup_step, first_failure, first_setup_step, undo_setup, CleanupStep, Session,
    SetupAction, SetupStep,
};

fn path(text: &str) -> ProjectPath {
    ProjectPath::from_text(text)
}

fn results(n: usize) -> Vec<(ProjectPath, i128)> {
    (0..n).map(|i| (path(&format!("/p/app{i}")), 0)).collect()
}

fn list(height: u16) -> Area {
    Area { x: 1, y: 3, width: 40, height }
}

fn picker_with(n: usize, selected: usize) -> Picker {
    let mut picker = Picker::new(vec![], "app");
    picker.results = results(n);
    picker.selected = selected;
    picker
}

fn is_open(step: Step, text: &str) -> bool {
    matches!(step, Step::Done(Some(p)) if p.display() == text)
}

fn rows(view: &FrameView) -> Vec<(String, String, String, bool)> {
    match &view.body {
        Body::Rows(rows) => rows
            .iter()
            .map(|r| (r.marker.clone(), r.name.clone(), r.path.clone(), r.selected))
            .collect(),
        Body::Message(message) => panic!("{message}"),
    }
}

fn message(view: &FrameView) -> String {
    match &view.body {
        Body::Message(message) => message.clone(),
        Body::Rows(_) => panic!("rows"),
    }
}

#[test]
fn result_start_keeps_selected_row_visible() {
    assert_eq!(result_start(10, 0, 3), 0);
    assert_eq!(result_start(10, 4, 3), 2);
    assert_eq!(result_start(10, 9, 3), 7);
}

#[test]
fn selected_row_is_always_shown() {
    for total in 0..12 {
        for visible in 0..12 {
            for selected in 0..total {
                let start = result_start(total, selected, visible);
                if visible > 0 {
                    assert!(start <= selected && selected < start + visible);
                } else {
                    assert_eq!(start, 0);
                }
            }
        }
    }
    assert_eq!(result_start(10, usize::MAX, 3), 7);
}

#[test]
fn height_of_the_picker() {
    for (rows, height) in [(0, 7), (7, 7), (9, 9), (12, 12), (50, 12)] {
        assert_eq!(viewport_height(Some(rows)), height);
    }
    assert_eq!(viewport_height(None), 8);
}

#[test]
fn layout_of_the_frame() {
    for y in 0..20 {
        for height in 6..40 {
            let area = Area { x: 2, y, width: 30, height };
            let s = render_frame(area, "q", &[], 0, false).sections;
            assert_eq!(s.input, Area { x: 3, y: y + 1, width: 28, height: 1 });
            assert_eq!(s.hint, Area { x: 3, y: y + 2, width: 28, height: 1 });
            assert_eq!(s.list, Area { x: 3, y: y + 3, width: 28, height: height - 5 });
            assert_eq!(s.footer, Area { x: 3, y: y + height - 2, width: 28, height: 1 });
        }
    }
}

#[test]
fn lengths_are_kept_where_there_is_room() {
    let lengths = [0u16, 1, 2, 7, 300, 9_000];
    for input in lengths {
        for hint in lengths {
            for footer in lengths {
                for (list, extra) in [(0u16, 0u16), (1, 0), (3, 5), (20_000, 1), (33_000, 99)] {
                    for y in [0u16, 1, 400] {
                        let height = input + hint + footer + list + extra;
                        let area = Area { x: 9, y, width: 3, height };
                        let row = |y: u16, height: u16| Area { x: 9, y, width: 3, height };
                        let s = split_rows(area, input, hint, list, footer);
                        assert_eq!(s.input, row(y, input));
                        assert_eq!(s.hint, row(y + input, hint));
                        assert_eq!(s.list, row(y + input + hint, list + extra));
                        assert_eq!(s.footer, row(y + height - footer, footer));
                    }
                }
            }
        }
    }
}

#[test]
fn layout_without_room() {
    for y in [0, 5, u16::MAX] {
        for height in 0..6 {
            let area = Area { x: 0, y, width: 1, height };
            let s = render_frame(area, "q", &[], 0, false).sections;
            for part in [s.input, s.hint, s.list, s.footer] {
                assert_eq!((part.x, part.width), (1, 0));
                assert!(part.y >= y);
                assert!(part.y + part.height <= y.saturating_add(height));
            }
        }
    }
}

#[test]
fn low_frame_keeps_a_row_for_results() {
    let heights = [
        (2, [0, 0, 0, 0]),
        (3, [0, 0, 1, 0]),
        (4, [0, 0, 1, 1]),
        (5, [1, 0, 1, 1]),
        (6, [1, 1, 1, 1]),
    ];
    for y in 0..500 {
        for (height, parts) in heights {
            let area = Area { x: 0, y, width: 9, height };
            let s = render_frame(area, "q", &[], 0, false).sections;
            let mut top = y + 1;
            for (part, height) in [s.input, s.hint, s.list, s.footer].iter().zip(parts) {
                assert_eq!(*part, Area { x: 1, y: top, width: 7, height });
                top += height;
            }
        }
    }
}

#[test]
fn rows_end_at_the_last_coordinate() {
    let area = Area { x: 0, y: u16::MAX - 3, width: 9, height: 40 };
    let s = split_rows(area, 1, 1, 1, 1);
    let row = |y: u16, height: u16| Area { x: 0, y, width: 9, height };
    assert_eq!(s.input, row(u16::MAX - 3, 1));
    assert_eq!(s.hint, row(u16::MAX - 2, 0));
    assert_eq!(s.list, row(u16::MAX - 2, 1));
    assert_eq!(s.footer, row(u16::MAX - 1, 1));
    let area = Area { y: u16::MAX - 8, ..area };
    let s = split_rows(area, 1, 1, 1, 1);
    assert_eq!(s.list, row(u16::MAX - 6, 5));
    assert_eq!(s.footer, row(u16::MAX - 1, 1));
}

#[test]
fn cursor_follows_the_query() {
    let area = Area { x: 0, y: 0, width: 40, height: 8 };
    let at = |query: &str| {
        let view = render_frame(area, query, &[], 0, false);
        (view.cursor_x, view.cursor_y)
    };
    assert_eq!(at(""), (1 + 17, 1));
    assert_eq!(at("abc"), (1 + 17 + 3, 1));
    // Wide characters take two columns.
    assert_eq!(at("\u{6f22}"), (1 + 17 + 2, 1));
    assert_eq!(at(&"x".repeat(100)), (38, 1));
}

#[test]
fn labels_and_messages() {
    let area = Area { x: 0, y: 0, width: 40, height: 8 };
    assert_eq!(input_label(""), "Recent projects [");
    assert_eq!(input_label("a"), "Search projects [");
    let view = render_frame(area, "a", &[], 0, true);
    assert_eq!(view.label, "Search projects [");
    assert_eq!(message(&view), "Scanning folders...");
    assert_eq!(view.footer, "No selection");
    assert_eq!(message(&render_frame(area, "", &[], 0, false)), "Type to search folders");
    assert_eq!(message(&render_frame(area, "a", &[], 0, false)), "No matching folders");
}

#[test]
fn rows_show_a_window_of_the_results() {
    let area = Area { x: 0, y: 0, width: 40, height: 8 };
    let view = render_frame(area, "app", &results(10), 4, false);
    assert_eq!(
        rows(&view),
        vec![
            ("  ".into(), "app2".into(), "/p/app2".into(), false),
            ("  ".into(), "app3".into(), "/p/app3".into(), false),
            ("> ".into(), "app4".into(), "/p/app4".into(), true),
        ]
    );
    assert_eq!(view.footer, "3-5 of 10");
    let view = render_frame(area, "", &[(path("/"), 0)], 0, false);
    assert_eq!(rows(&view), vec![("> ".into(), "".into(), "/".into(), true)]);
    assert_eq!(view.footer, "1-1 of 1");
}

#[test]
fn frame_from_given_sections() {
    let row = |y: u16, height: u16| Area { x: 5, y, width: 10, height };
    let sections = Sections { input: row(0, 1), hint: row(1, 1), list: row(2, 0), footer: row(2, 1) };
    let view = compose_frame(sections, 4, "q", &results(2), 1, false);
    assert_eq!((view.cursor_x, view.cursor_y), (9, 0));
    assert_eq!(message(&view), "No matching folders");
    assert_eq!(view.footer, "1-0 of 2");
    let view = compose_frame(sections, 100_000, "q", &results(2), 1, false);
    assert_eq!(view.cursor_x, 14);
}

#[test]
fn areas() {
    let area = Area { x: 2, y: 3, width: 4, height: 5 };
    assert!(area.contains(2, 3) && area.contains(5, 7));
    assert!(!area.contains(1, 3) && !area.contains(6, 3));
    assert!(!area.contains(2, 2) && !area.contains(2, 8));
    let edge = Area { x: u16::MAX, y: 0, width: 4, height: 5 };
    assert_eq!(edge.right(), u16::MAX);
    assert!(!edge.contains(u16::MAX, 0));
}

#[test]
fn scan_is_started_once() {
    let mut picker = Picker::new(vec![path("/r/one")], "");
    assert!(!picker.begin_scan());
    picker.handle(Input::Char('a', false), list(5));
    assert!(picker.begin_scan());
    assert!(picker.scanning);
    assert!(!picker.begin_scan());
    picker.scan_done(vec![path("/x/app"), path("/x/b")]);
    assert!(!picker.scanning);
    assert!(!picker.begin_scan());
    picker.refresh();
    assert_eq!(picker.results.len(), 1);
    assert_eq!(picker.results[0].0, path("/x/app"));
}

#[test]
fn recent_projects_are_shown_without_a_query() {
    let recent: Vec<ProjectPath> = (0..8).map(|i| path(&format!("/r/{i}"))).collect();
    let shown = recent_results(&recent);
    assert_eq!(shown.len(), 5);
    assert_eq!(shown[4], (path("/r/4"), 0));
    let mut picker = Picker::new(recent, "");
    picker.selected = 9;
    picker.refresh();
    assert_eq!(picker.results.len(), 5);
    assert_eq!(picker.selected, 4);
    picker.handle(Input::Char('z', false), list(5));
    picker.refresh();
    assert_eq!((picker.results.len(), picker.selected), (0, 0));
}

#[test]
fn keys_move_the_selection() {
    let mut picker = picker_with(3, 0);
    for expected in [1, 2, 2] {
        assert!(matches!(picker.handle(Input::Down, list(5)), Step::Stay));
        assert_eq!(picker.selected, expected);
    }
    for expected in [1, 0, 0] {
        picker.handle(Input::Up, list(5));
        assert_eq!(picker.selected, expected);
    }
    let mut empty = picker_with(0, 0);
    empty.handle(Input::Down, list(5));
    assert_eq!(empty.selected, 0);
}

#[test]
fn keys_end_the_picker() {
    assert!(is_open(picker_with(3, 1).handle(Input::Enter, list(5)), "/p/app1"));
    assert!(matches!(picker_with(0, 0).handle(Input::Enter, list(5)), Step::Done(None)));
    assert!(matches!(picker_with(3, 1).handle(Input::Escape, list(5)), Step::Done(None)));
    let mut picker = picker_with(3, 1);
    assert!(matches!(picker.handle(Input::Char('c', true), list(5)), Step::Done(None)));
    assert!(matches!(picker.handle(Input::Char('c', false), list(5)), Step::Stay));
    assert!(matches!(picker.handle(Input::Char('x', true), list(5)), Step::Stay));
    assert_eq!(picker.query, "appcx");
    assert!(matches!(picker.handle(Input::Other, list(5)), Step::Stay));
}

#[test]
fn backspace_takes_back_what_was_typed() {
    let mut picker = Picker::new(vec![], "a");
    picker.handle(Input::Char('\u{e4}', false), list(5));
    assert_eq!(picker.query, "a\u{e4}");
    for expected in ["a", "", ""] {
        picker.handle(Input::Backspace, list(5));
        assert_eq!(picker.query, expected);
    }
}

#[test]
fn double_click_opens_a_result() {
    let mut picker = picker_with(3, 0);
    let area = list(5);
    assert!(matches!(picker.handle(Input::Click(2, 4, 1_000), area), Step::Stay));
    assert_eq!(picker.selected, 1);
    let step = picker.handle(Input::Click(9, 4, 1_000 + DOUBLE_CLICK - 1), area);
    assert!(is_open(step, "/p/app1"));
}

#[test]
fn slow_or_scattered_clicks_only_select() {
    let mut picker = picker_with(3, 0);
    let area = list(5);
    picker.handle(Input::Click(2, 4, 1_000), area);
    assert!(matches!(picker.handle(Input::Click(2, 4, 1_000 + DOUBLE_CLICK), area), Step::Stay));
    assert!(matches!(picker.handle(Input::Click(2, 5, 1_001 + DOUBLE_CLICK), area), Step::Stay));
    assert_eq!(picker.selected, 2);
    // Below the results and outside the list nothing happens.
    for (column, row) in [(2, 6), (0, 4), (2, 2), (2, 8)] {
        assert!(matches!(picker.handle(Input::Click(column, row, 0), area), Step::Stay));
        assert_eq!(picker.selected, 2);
    }
    let click = picker.last_click.unwrap();
    assert_eq!((click.result, click.row, click.time), (2, 5, 1_001 + DOUBLE_CLICK));
    assert_eq!((click.path.display().as_str(), click.latest), ("/p/app2", false));
}

#[test]
fn double_click_opens_a_row_of_a_scrolled_list() {
    for row in 0..3u16 {
        let mut picker = picker_with(10, 4);
        let area = list(3);
        let shown = result_start(10, 4, 3) + row as usize;
        assert!(matches!(picker.handle(Input::Click(2, 3 + row, 0), area), Step::Stay));
        assert_eq!(picker.selected, shown);
        // The button is let go, and the list is brought up to date.
        assert!(matches!(picker.handle(Input::Other, area), Step::Stay));
        picker.paths = Some((0..10).map(|i| path(&format!("/p/app{i}"))).collect());
        picker.refresh();
        let step = picker.handle(Input::Click(9, 3 + row, DOUBLE_CLICK - 1), area);
        assert!(is_open(step, &format!("/p/app{shown}")), "row {row}");
    }
}

#[test]
fn double_click_opens_what_was_shown_at_the_first_click() {
    let mut picker = picker_with(3, 0);
    let area = list(5);
    picker.handle(Input::Click(2, 5, 0), area);
    picker.scan_done(vec![path("/p/application")]);
    picker.refresh();
    assert_eq!(picker.results.len(), 1);
    assert!(is_open(picker.handle(Input::Click(2, 5, 1), area), "/p/app2"));
}

#[test]
fn input_between_two_clicks_parts_them() {
    let area = list(3);
    for input in [Input::Up, Input::Down, Input::Backspace, Input::Char('x', false), Input::Click(0, 0, 1)] {
        let mut picker = picker_with(10, 4);
        picker.handle(Input::Click(2, 3, 0), area);
        assert_eq!(picker.selected, 2);
        picker.handle(input, area);
        assert!(matches!(picker.handle(Input::Click(2, 3, 2), area), Step::Stay));
        assert_ne!(picker.selected, 2);
    }
}

#[test]
fn same_result_in_another_row_opens_on_the_second_click() {
    let area = list(3);
    let mut picker = picker_with(10, 4);
    picker.handle(Input::Click(2, 3, 0), area);
    assert_eq!(picker.selected, 2);
    assert_eq!(result_start(10, 2, 3), 0);
    assert!(is_open(picker.handle(Input::Click(2, 5, 1), area), "/p/app2"));
}

#[test]
fn session_is_given_back_once() {
    let mut session = Session::opened();
    session.mouse_captured();
    assert_eq!(
        session.cleanup(),
        vec![
            CleanupStep::ReleaseMouse,
            CleanupStep::Clear,
            CleanupStep::RestorePosition,
            CleanupStep::ShowCursor,
            CleanupStep::DisableRawMode,
        ]
    );
    assert_eq!(session, Session { mouse_capture: false, raw_mode: false, cleaned: true });
    assert!(session.cleanup().is_empty());
}

#[test]
fn failed_setup_is_undone() {
    assert!(undo_setup(SetupStep::EnableRawMode).is_empty());
    assert_eq!(undo_setup(SetupStep::SavePosition), vec![CleanupStep::DisableRawMode]);
    assert_eq!(
        undo_setup(SetupStep::OpenTerminal),
        vec![CleanupStep::RestorePosition, CleanupStep::DisableRawMode]
    );
    assert_eq!(
        undo_setup(SetupStep::CaptureMouse),
        vec![
            CleanupStep::Clear,
            CleanupStep::RestorePosition,
            CleanupStep::ShowCursor,
            CleanupStep::DisableRawMode,
        ]
    );
}

#[test]
fn first_error_is_reported() {
    assert_eq!(first_failure(&[true, false, true, false]), Some(1));
    assert_eq!(first_failure(&[true, true]), None);
    assert_eq!(first_failure(&[]), None);
}

/// The steps that a setup takes where the step `failing` fails, and what it ends in.
fn set_up(failing: Option<SetupStep>) -> (Vec<SetupStep>, SetupAction<String>) {
    let mut taken = Vec::new();
    let mut step = first_setup_step();
    loop {
        taken.push(step);
        let outcome = if failing == Some(step) {
            Err(format!("{step:?}"))
        } else {
            Ok(())
        };
        match after_setup_step(step, outcome) {
            SetupAction::Perform(next) => step = next,
            end => return (taken, end),
        }
    }
}

#[test]
fn setup_takes_its_steps_in_order() {
    let (taken, end) = set_up(None);
    assert_eq!(
        taken,
        vec![
            SetupStep::EnableRawMode,
            SetupStep::SavePosition,
            SetupStep::OpenTerminal,
            SetupStep::CaptureMouse,
        ]
    );
    match end {
        SetupAction::Ready(session) => {
            assert_eq!(
                session,
                Session { mouse_capture: true, raw_mode: true, cleaned: false }
            );
        }
        _ => panic!("not ready"),
    }
}

#[test]
fn failed_setup_step_is_reported() {
    let (all, _) = set_up(None);
    for (n, failing) in all.iter().enumerate() {
        let (taken, end) = set_up(Some(*failing));
        assert_eq!(taken, all[..n + 1].to_vec());
        match end {
            SetupAction::Fail(error, steps) => {
                assert_eq!(error, format!("{failing:?}"));
                assert_eq!(steps, undo_setup(*failing));
            }
            _ => panic!("no failure"),
        }
    }
}

#[test]
fn fixed_texts_of_the_frame() {
    let area = Area { x: 0, y: 0, width: 60, height: 8 };
    for (query, n) in [("", 0), ("app", 0), ("app", 3)] {
        let view = render_frame(area, query, &results(n), 0, false);
        assert_eq!(view.title, " WTFIS ");
        assert_eq!(view.caption, " local project finder ");
        assert_eq!(view.closing, "]");
        assert_eq!(
            view.hint,
            "Up/Down navigate  Enter open  Esc cancel  Click select  Double-click open"
        );
        match view.body {
            Body::Rows(rows) => assert!(n > 0 && rows.iter().all(|row| row.gap == "  ")),
            Body::Message(_) => assert_eq!(n, 0),
        }
    }
}

#[test]
fn picks_are_on_offer() {
    let recent: Vec<ProjectPath> = (0..9).map(|i| path(&format!("/recent/{i}"))).collect();
    let area = list(8);
    for row in 3..11 {
        // Nothing typed: one of the first five recent projects.
        let mut picker = Picker::new(recent.clone(), "");
        assert!(!picker.begin_scan());
        picker.refresh();
        picker.handle(Input::Click(2, row, 0), area);
        picker.refresh();
        let step = picker.handle(Input::Click(2, row, 1), area);
        if row < 8 {
            assert!(is_open(step, &format!("/recent/{}", row - 3)));
        } else {
            assert!(matches!(step, Step::Stay));
        }
        // Something typed: one of the folders that were found and match.
        let mut picker = Picker::new(recent.clone(), "app");
        assert!(picker.begin_scan());
        picker.refresh();
        assert!(matches!(picker.handle(Input::Enter, area), Step::Done(None)));
        picker.scan_done(vec![path("/p/app"), path("/p/zzz"), path("/p/my-app")]);
        picker.refresh();
        picker.handle(Input::Click(2, row, 0), area);
        let step = picker.handle(Input::Click(2, row, 1), area);
        match row {
            3 => assert!(is_open(step, "/p/app")),
            4 => assert!(is_open(step, "/p/my-app")),
            _ => assert!(matches!(step, Step::Stay)),
        }
    }
}
