use vix::app::{App, AppAction, AppMode, InputEvent, Key, Move, Position};

fn pos(row: u16, col: u16) -> Position {
    Position { row, col }
}

fn key(k: Key) -> InputEvent {
    InputEvent::Key(k)
}

#[test]
fn free_move_saturates() {
    assert_eq!(pos(0, 0).free_move(Move::Left), pos(0, 0));
    assert_eq!(pos(0, 0).free_move(Move::Up), pos(0, 0));
    assert_eq!(pos(3, 4).free_move(Move::Down), pos(4, 4));
    assert_eq!(pos(3, u16::MAX).free_move(Move::Right), pos(3, u16::MAX));
    assert_eq!(pos(3, 4).free_move(Move::Stay), pos(3, 4));
}

#[test]
fn constraint_move_stops_at_bounds() {
    assert_eq!(pos(2, 5).constraint_move(5, 9, Move::Right), pos(2, 5));
    assert_eq!(pos(2, 4).constraint_move(5, 9, Move::Right), pos(2, 5));
    assert_eq!(pos(9, 0).constraint_move(5, 9, Move::Down), pos(9, 0));
    assert_eq!(pos(8, 0).constraint_move(5, 9, Move::Down), pos(9, 0));
    assert_eq!(pos(8, 1).constraint_move(5, 9, Move::Left), pos(8, 0));
    assert_eq!(pos(8, 1).constraint_move(5, 9, Move::Up), pos(7, 1));
}

#[test]
fn modes_and_commands() {
    let mut app = App::default();
    assert_eq!(app.mode, AppMode::Normal);
    assert!(app.show_help && app.running);
    let a = app.handle_event(key(Key::Char(':')), 80, 24);
    assert_eq!(a, AppAction::EnterMode(AppMode::Command));
    app.process(a);
    for ch in "quix".chars() {
        let a = app.handle_event(key(Key::Char(ch)), 80, 24);
        app.process(a);
    }
    app.process(app.handle_event(key(Key::Backspace), 80, 24));
    app.process(app.handle_event(key(Key::Char('t')), 80, 24));
    assert_eq!(app.cmd, "quit");
    app.process(app.handle_event(key(Key::Enter), 80, 24));
    assert!(!app.running);
    assert_eq!(app.mode, AppMode::Normal);
}

#[test]
fn help_command_shows_help() {
    let mut app = App::default();
    app.show_help = false;
    app.process(AppAction::EnterMode(AppMode::Command));
    app.process(AppAction::CmdPush('h'));
    app.process(AppAction::CmdEnter);
    assert!(app.show_help);
    assert!(app.running);
}

#[test]
fn typing_in_insert_mode() {
    let mut app = App::open_file("f", "ab\ncd");
    app.process(app.handle_event(key(Key::Char('i')), 80, 24));
    assert_eq!(app.mode, AppMode::Insert);
    app.process(app.handle_event(key(Key::Char('x')), 80, 24));
    assert_eq!(app.doc.get_line(0), Some("xab"));
    assert_eq!(app.cursor, pos(0, 1));
    app.process(app.handle_event(key(Key::Enter), 80, 24));
    assert_eq!(app.doc.get_line(0), Some("x"));
    assert_eq!(app.doc.get_line(1), Some("ab"));
    assert_eq!(app.cursor, pos(1, 0));
    assert_eq!(app.handle_event(key(Key::Backspace), 80, 24), AppAction::BackspaceLine);
    app.process(AppAction::BackspaceLine);
    assert_eq!(app.doc.get_line(0), Some("xab"));
    assert_eq!(app.cursor, pos(0, 1));
    app.process(app.handle_event(key(Key::Backspace), 80, 24));
    assert_eq!(app.doc.get_line(0), Some("ab"));
    assert_eq!(app.cursor, pos(0, 0));
    assert_eq!(app.handle_event(key(Key::Backspace), 80, 24), AppAction::Nothing);
    app.process(app.handle_event(key(Key::Esc), 80, 24));
    assert_eq!(app.mode, AppMode::Normal);
}

#[test]
fn cursor_stays_inside_line_and_document() {
    let mut app = App::open_file("f", "abc\nd");
    app.process(app.handle_event(key(Key::Char('l')), 80, 24));
    app.process(app.handle_event(key(Key::Right), 80, 24));
    app.process(app.handle_event(key(Key::Right), 80, 24));
    app.process(app.handle_event(key(Key::Right), 80, 24));
    assert_eq!(app.cursor, pos(0, 3));
    app.process(app.handle_event(key(Key::Char('j')), 80, 24));
    assert_eq!(app.cursor, pos(1, 1));
    // the column is held to the length of the row below the last line, then
    // the row comes back
    app.process(app.handle_event(key(Key::Down), 80, 24));
    assert_eq!(app.cursor, pos(1, 0));
    app.process(app.handle_event(key(Key::Char('l')), 80, 24));
    app.process(app.handle_event(key(Key::Char('k')), 80, 24));
    assert_eq!(app.cursor, pos(0, 1));
    app.process(app.handle_event(key(Key::Up), 80, 24));
    assert_eq!(app.cursor, pos(0, 1));
    assert_eq!(app.view_shift, pos(0, 0));
}

#[test]
fn view_scrolls_on_small_terminal() {
    let text: String = (0..10).map(|i| format!("line{}\n", i)).collect();
    let mut app = App::open_file("f", &text);
    for _ in 0..6 {
        app.process(app.handle_event(key(Key::Down), 80, 5));
    }
    assert_eq!(app.cursor, pos(3, 0));
    assert_eq!(app.view_shift, pos(3, 0));
    app.process(app.handle_event(InputEvent::Resize, 80, 5));
    assert_eq!(app.cursor, pos(3, 0));
    let a = app.handle_event_cursor(80, 5, Move::Stay);
    assert_eq!(a, AppAction::CursorViewChange { cursor: pos(3, 0), view_shift: pos(3, 0) });
}
