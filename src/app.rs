//! Cursor positions and the editor's key handling, as plain state and
//! transitions that a terminal front end drives.

use vstd::prelude::*;
use vstd::string::{StrSliceExecFns, StringExecFns};

use crate::document::Document;
use crate::piece_table::{max_int, min_int};
use crate::text::push_char;

verus! {

/// A cell position: row and column, counted from 0.
#[derive(Debug, Clone, Copy, PartialEq, Eq, Structural)]
pub struct Position {
    pub row: u16,
    pub col: u16,
}

/// One step of cursor movement.
#[derive(Debug, Clone, Copy, PartialEq, Eq, Structural)]
pub enum Move {
    Stay,
    Left,
    Right,
    Up,
    Down,
}

impl Default for Position {
    fn default() -> (r: Position)
        ensures
            r.row == 0 && r.col == 0,
    {
        Position { row: 0, col: 0 }
    }
}

/// `p` moved one step in direction `mv`, stopping at the limits of `u16`.
pub open spec fn moved(p: Position, mv: Move) -> Position {
    match mv {
        Move::Left => Position { row: p.row, col: p.col.saturating_sub(1) },
        Move::Up => Position { row: p.row.saturating_sub(1), col: p.col },
        Move::Down => Position { row: p.row.saturating_add(1), col: p.col },
        Move::Right => Position { row: p.row, col: p.col.saturating_add(1) },
        Move::Stay => p,
    }
}

impl Position {
    /// The position one step away in direction `mv`, stopping at the limits
    /// of `u16`.
    pub fn free_move(self, mv: Move) -> (r: Position)
        ensures
            r == moved(self, mv),
    {
        match mv {
            Move::Left => Position { row: self.row, col: self.col.saturating_sub(1) },
            Move::Up => Position { row: self.row.saturating_sub(1), col: self.col },
            Move::Down => Position { row: self.row.saturating_add(1), col: self.col },
            Move::Right => Position { row: self.row, col: self.col.saturating_add(1) },
            Move::Stay => Position { row: self.row, col: self.col },
        }
    }

    /// Like `free_move`, but a step down or right is taken only while the
    /// row is below `height` or the column below `width`.
    pub fn constraint_move(self, width: u16, height: u16, mv: Move) -> (r: Position)
        ensures
            r == match mv {
                Move::Left => Position { row: self.row, col: self.col.saturating_sub(1) },
                Move::Up => Position { row: self.row.saturating_sub(1), col: self.col },
                Move::Down => Position {
                    row: if self.row < height { (self.row + 1) as u16 } else { self.row },
                    col: self.col,
                },
                Move::Right => Position {
                    row: self.row,
                    col: if self.col < width { (self.col + 1) as u16 } else { self.col },
                },
                Move::Stay => self,
            },
    {
        match mv {
            Move::Left => Position { row: self.row, col: self.col.saturating_sub(1) },
            Move::Up => Position { row: self.row.saturating_sub(1), col: self.col },
            Move::Down => Position {
                row: if self.row < height { self.row.saturating_add(1) } else { self.row },
                col: self.col,
            },
            Move::Right => Position {
                row: self.row,
                col: if self.col < width { self.col.saturating_add(1) } else { self.col },
            },
            Move::Stay => Position { row: self.row, col: self.col },
        }
    }
}

/// The editor's input mode.
#[derive(Debug, Clone, Copy, PartialEq, Eq, Structural)]
pub enum AppMode {
    Normal,
    Insert,
    Command,
}

impl Default for AppMode {
    fn default() -> (r: AppMode)
        ensures
            r == AppMode::Normal,
    {
        AppMode::Normal
    }
}

/// A key as the editor tells keys apart.
#[derive(Debug, Clone, Copy, PartialEq, Eq, Structural)]
pub enum Key {
    Char(char),
    Left,
    Right,
    Up,
    Down,
    Esc,
    Backspace,
    Enter,
    Other,
}

/// An input event: a key press, a change of the terminal's size, or
/// anything else.
#[derive(Debug, Clone, Copy, PartialEq, Eq, Structural)]
pub enum InputEvent {
    Key(Key),
    Resize,
    Other,
}

/// What an event asks the editor to do.
#[derive(Debug, Clone, Copy, PartialEq, Eq, Structural)]
pub enum AppAction {
    Nothing,
    CursorViewChange { cursor: Position, view_shift: Position },
    EnterMode(AppMode),
    CmdPush(char),
    CmdPop,
    CmdEnter,
    InsertChar(char),
    DeleteChar,
    BackspaceLine,
    NewLine,
}

/// The editor: mode, cursor on screen, how far the view is scrolled, whether
/// the help is shown, whether it keeps running, the document and the command
/// being typed.
#[derive(Debug)]
pub struct App {
    pub mode: AppMode,
    pub cursor: Position,
    pub view_shift: Position,
    pub show_help: bool,
    pub running: bool,
    pub doc: Document,
    pub cmd: String,
}

pub open spec fn sat_sub(a: int, b: int) -> int {
    if a > b { a - b } else { 0 }
}

/// Cursor and view offset after the first step of `mv`: at the left or top
/// edge of the screen the view scrolls instead of the cursor moving.
pub open spec fn first_step(cursor: Position, view: Position, mv: Move) -> (Position, Position) {
    match mv {
        Move::Left => if cursor.col == 0 {
            (cursor, moved(view, Move::Left))
        } else {
            (moved(cursor, Move::Left), view)
        },
        Move::Up => if cursor.row == 0 {
            (cursor, moved(view, Move::Up))
        } else {
            (moved(cursor, Move::Up), view)
        },
        _ => (moved(cursor, mv), view),
    }
}

/// A screen coordinate `c` past both `a` and `b` comes back to the larger of
/// them, and the view offset `v` grows by as much (up to `u16::MAX`).
pub open spec fn scroll_back(c: int, v: int, a: int, b: int) -> (int, int) {
    if c > a && c > b {
        (max_int(a, b), min_int(v + c - max_int(a, b), u16::MAX as int))
    } else {
        (c, v)
    }
}

/// Where a screen coordinate `c` plus view offset `v` passes `limit`, the
/// coordinate comes back first and then the offset, until they reach it.
pub open spec fn pull_in(c: int, v: int, limit: int) -> (int, int) {
    if c + v <= limit {
        (c, v)
    } else if c + v - limit <= c {
        (limit - v, v)
    } else {
        (0, limit)
    }
}

/// The cursor move that `mv` asks for, on a terminal of `cols` by `rows`
/// cells over a document with lines `lines`: kept inside the screen, with the
/// column inside its line and the row inside the document.
pub open spec fn cursor_action(cursor: Position, view: Position, lines: Seq<Seq<char>>, cols: u16, rows: u16, mv: Move) -> AppAction {
    let (c0, v0) = first_step(cursor, view, mv);
    let width = sat_sub(cols as int, 1);
    let height = sat_sub(rows as int, 2);
    let doc_height = sat_sub(lines.len() as int, 1);
    let at = v0.row + c0.row;
    let ln_len = if at < lines.len() { lines[at].len() as int } else { 0 };
    let last_col = min_int(sat_sub(ln_len, v0.col as int), width);
    let last_row = min_int(sat_sub(doc_height, v0.row as int), height);
    let (c1, v1) = scroll_back(c0.col as int, v0.col as int, width, last_col);
    let (r1, w1) = scroll_back(c0.row as int, v0.row as int, height, last_row);
    let (c2, v2) = pull_in(c1, v1, ln_len);
    let (r2, w2) = pull_in(r1, w1, doc_height);
    AppAction::CursorViewChange {
        cursor: Position { row: r2 as u16, col: c2 as u16 },
        view_shift: Position { row: w2 as u16, col: v2 as u16 },
    }
}

/// The action a key asks for in normal mode.
pub open spec fn normal_action(app: &App, event: InputEvent, cols: u16, rows: u16) -> AppAction {
    match event {
        InputEvent::Key(k) => match k {
            Key::Char('h') | Key::Left => cursor_action(app.cursor, app.view_shift, app.doc.lines_view(), cols, rows, Move::Left),
            Key::Char('j') | Key::Down => cursor_action(app.cursor, app.view_shift, app.doc.lines_view(), cols, rows, Move::Down),
            Key::Char('k') | Key::Up => cursor_action(app.cursor, app.view_shift, app.doc.lines_view(), cols, rows, Move::Up),
            Key::Char('l') | Key::Right => cursor_action(app.cursor, app.view_shift, app.doc.lines_view(), cols, rows, Move::Right),
            Key::Char('i') => AppAction::EnterMode(AppMode::Insert),
            Key::Char(':') => AppAction::EnterMode(AppMode::Command),
            _ => AppAction::Nothing,
        },
        _ => AppAction::Nothing,
    }
}

/// The action a key asks for in insert mode.
pub open spec fn insert_action(app: &App, event: InputEvent) -> AppAction {
    match event {
        InputEvent::Key(k) => match k {
            Key::Esc => AppAction::EnterMode(AppMode::Normal),
            Key::Char(ch) => AppAction::InsertChar(ch),
            Key::Backspace => if app.cursor.col != 0 {
                AppAction::DeleteChar
            } else if app.cursor.row != 0 || app.view_shift.row != 0 {
                AppAction::BackspaceLine
            } else {
                AppAction::Nothing
            },
            Key::Enter => AppAction::NewLine,
            _ => AppAction::Nothing,
        },
        _ => AppAction::Nothing,
    }
}

/// The action a key asks for in command mode.
pub open spec fn command_action(event: InputEvent) -> AppAction {
    match event {
        InputEvent::Key(k) => match k {
            Key::Esc => AppAction::EnterMode(AppMode::Normal),
            Key::Char(ch) => AppAction::CmdPush(ch),
            Key::Backspace => AppAction::CmdPop,
            Key::Enter => AppAction::CmdEnter,
            _ => AppAction::Nothing,
        },
        _ => AppAction::Nothing,
    }
}

/// The action an event asks for in the editor's current mode. A resize only
/// brings the cursor back inside the screen.
pub open spec fn event_action(app: &App, event: InputEvent, cols: u16, rows: u16) -> AppAction {
    match event {
        InputEvent::Resize => cursor_action(app.cursor, app.view_shift, app.doc.lines_view(), cols, rows, Move::Stay),
        _ => match app.mode {
            AppMode::Normal => normal_action(app, event, cols, rows),
            AppMode::Insert => insert_action(app, event),
            AppMode::Command => command_action(event),
        },
    }
}

/// The first step of a cursor move: at the left or top edge of the screen
/// the view scrolls instead of the cursor moving.
fn first_move(cursor: Position, view: Position, mv: Move) -> (r: (Position, Position))
    ensures
        r == first_step(cursor, view, mv),
{
    match mv {
        Move::Stay => (cursor, view),
        Move::Left => {
            if cursor.col == 0 {
                (cursor, view.free_move(Move::Left))
            } else {
                (cursor.free_move(Move::Left), view)
            }
        },
        Move::Down => (cursor.free_move(Move::Down), view),
        Move::Up => {
            if cursor.row == 0 {
                (cursor, view.free_move(Move::Up))
            } else {
                (cursor.free_move(Move::Up), view)
            }
        },
        Move::Right => (cursor.free_move(Move::Right), view),
    }
}

/// One axis of the screen: while the coordinate `c` lies past both `a` and
/// `b`, it steps back and the view offset `v` steps forward.
fn scroll_axis(c: u16, v: u16, a: u16, b: usize) -> (r: (u16, u16))
    ensures
        (r.0 as int, r.1 as int) == scroll_back(c as int, v as int, a as int, b as int),
{
    let mut c = c;
    let mut v = v;
    let ghost c0 = c;
    let ghost v0 = v;
    while c > a && (c as usize) > b
        invariant
            scroll_back(c as int, v as int, a as int, b as int) == scroll_back(c0 as int, v0 as int, a as int, b as int),
        decreases c,
    {
        v = v.saturating_add(1);
        c = c.saturating_sub(1);
    }
    (c, v)
}

/// One axis of the document: while coordinate `c` plus view offset `v` lies
/// past `limit`, the coordinate steps back, and once it is 0 the offset does.
fn pull_axis(c: u16, v: u16, limit: usize) -> (r: (u16, u16))
    ensures
        (r.0 as int, r.1 as int) == pull_in(c as int, v as int, limit as int),
{
    let mut c = c;
    let mut v = v;
    let ghost c0 = c;
    let ghost v0 = v;
    while (c as usize).saturating_add(v as usize) > limit
        invariant
            pull_in(c as int, v as int, limit as int) == pull_in(c0 as int, v0 as int, limit as int),
        decreases c + v,
    {
        if c != 0 {
            c = c.saturating_sub(1);
        } else {
            v = v.saturating_sub(1);
        }
    }
    (c, v)
}

/// Whether command `c` stops the editor.
pub open spec fn quits(c: Seq<char>) -> bool {
    c == "q"@ || c == "quit"@ || c == "exit"@
}

/// Whether command `c` asks for the help.
pub open spec fn asks_help(c: Seq<char>) -> bool {
    c == "h"@ || c == "help"@
}

/// Compares two strings codepoint by codepoint.
fn str_eq(a: &str, b: &str) -> (r: bool)
    ensures
        r == (a@ == b@),
{
    let n = a.unicode_len();
    let m = b.unicode_len();
    if n != m {
        return false;
    }
    let mut i: usize = 0;
    while i < n
        invariant
            n == a@.len(),
            m == b@.len(),
            n == m,
            i <= n,
            a@.subrange(0, i as int) == b@.subrange(0, i as int),
        decreases n - i,
    {
        if a.get_char(i) != b.get_char(i) {
            assert(a@[i as int] != b@[i as int]);
            return false;
        }
        assert(a@.subrange(0, i + 1) == a@.subrange(0, i as int).push(a@[i as int]));
        assert(b@.subrange(0, i + 1) == b@.subrange(0, i as int).push(b@[i as int]));
        i += 1;
    }
    assert(a@ == a@.subrange(0, n as int));
    assert(b@ == b@.subrange(0, n as int));
    true
}

impl Default for App {
    /// The editor on an empty document, in normal mode, showing the help.
    fn default() -> (r: App)
        ensures
            r.mode == AppMode::Normal,
            r.cursor == (Position { row: 0, col: 0 }),
            r.view_shift == (Position { row: 0, col: 0 }),
            r.show_help,
            r.running,
            r.doc.lines_view() == Seq::<Seq<char>>::empty(),
            !r.doc.is_dirty(),
            r.doc.uri_view() is None,
            r.cmd@ == Seq::<char>::empty(),
    {
        App {
            mode: AppMode::default(),
            cursor: Position::default(),
            view_shift: Position::default(),
            show_help: true,
            running: true,
            doc: Document::default(),
            cmd: String::new(),
        }
    }
}

impl App {
    /// The editor on the document of file `uri`, whose text is `content`.
    pub fn open_file(uri: &str, content: &str) -> (r: App)
        ensures
            r.mode == AppMode::Normal,
            r.cursor == (Position { row: 0, col: 0 }),
            r.view_shift == (Position { row: 0, col: 0 }),
            r.show_help,
            r.running,
            r.doc.lines_view() == crate::document::text_lines(content@),
            !r.doc.is_dirty(),
            r.doc.uri_view() == Some(uri@),
            r.cmd@ == Seq::<char>::empty(),
    {
        App {
            mode: AppMode::default(),
            cursor: Position::default(),
            view_shift: Position::default(),
            show_help: true,
            running: true,
            doc: Document::open(uri, content),
            cmd: String::new(),
        }
    }

    /// The action an event asks for, on a terminal of `cols` by `rows` cells.
    pub fn handle_event(&self, event: InputEvent, cols: u16, rows: u16) -> (r: AppAction)
        ensures
            r == event_action(self, event, cols, rows),
    {
        match event {
            InputEvent::Resize => self.handle_event_cursor(cols, rows, Move::Stay),
            _ => match self.mode {
                AppMode::Normal => self.handle_event_normal(event, cols, rows),
                AppMode::Insert => self.handle_event_insert(event),
                AppMode::Command => self.handle_event_command(event),
            },
        }
    }

    /// Keys of normal mode: `h` `j` `k` `l` and the arrows move, `i` enters
    /// insert mode and `:` command mode.
    pub fn handle_event_normal(&self, event: InputEvent, cols: u16, rows: u16) -> (r: AppAction)
        ensures
            r == normal_action(self, event, cols, rows),
    {
        match event {
            InputEvent::Key(k) => match k {
                Key::Char('h') | Key::Left => self.handle_event_cursor(cols, rows, Move::Left),
                Key::Char('j') | Key::Down => self.handle_event_cursor(cols, rows, Move::Down),
                Key::Char('k') | Key::Up => self.handle_event_cursor(cols, rows, Move::Up),
                Key::Char('l') | Key::Right => self.handle_event_cursor(cols, rows, Move::Right),
                Key::Char('i') => AppAction::EnterMode(AppMode::Insert),
                Key::Char(':') => AppAction::EnterMode(AppMode::Command),
                _ => AppAction::Nothing,
            },
            _ => AppAction::Nothing,
        }
    }

    /// Moves the cursor by `mv` and keeps it on the screen, inside its line
    /// and inside the document, scrolling the view where it has to.
    pub fn handle_event_cursor(&self, cols: u16, rows: u16, mv: Move) -> (r: AppAction)
        ensures
            r == cursor_action(self.cursor, self.view_shift, self.doc.lines_view(), cols, rows, mv),
    {
        let width = cols.saturating_sub(1);
        let height = rows.saturating_sub(2);
        let doc_height = self.doc.line_count().saturating_sub(1);

        let (cursor, view_shift) = first_move(self.cursor, self.view_shift, mv);

        let ln_len = self.doc.get_line_len(view_shift.row as usize + cursor.row as usize);
        let lc = ln_len.saturating_sub(view_shift.col as usize);
        let last_col = if lc < width as usize { lc } else { width as usize };
        let lr = doc_height.saturating_sub(view_shift.row as usize);
        let last_row = if lr < height as usize { lr } else { height as usize };

        let (col, shift_col) = scroll_axis(cursor.col, view_shift.col, width, last_col);
        let (row, shift_row) = scroll_axis(cursor.row, view_shift.row, height, last_row);
        let (col, shift_col) = pull_axis(col, shift_col, ln_len);
        let (row, shift_row) = pull_axis(row, shift_row, doc_height);
        AppAction::CursorViewChange {
            cursor: Position { row, col },
            view_shift: Position { row: shift_row, col: shift_col },
        }
    }

    /// Whether `process` can carry out `action` on this state: joining lines
    /// needs the cursor's row and one more line, breaking a line needs the
    /// cursor inside the document.
    pub open spec fn can_process(&self, action: AppAction) -> bool {
        match action {
            AppAction::BackspaceLine => (self.cursor.row as int) < self.doc.lines_view().len()
                && self.doc.lines_view().len() >= 2,
            AppAction::NewLine => (self.cursor.row as int) < self.doc.lines_view().len()
                && (self.cursor.col as int) <= self.doc.lines_view()[self.cursor.row as int].len(),
            _ => true,
        }
    }

    /// Carries out `action`.
    pub fn process(&mut self, action: AppAction)
        requires
            old(self).can_process(action),
        ensures
            final(self).running == if action is CmdEnter {
                old(self).running && !quits(old(self).cmd@)
            } else {
                old(self).running
            },
            final(self).show_help == if action is CmdEnter {
                old(self).show_help || asks_help(old(self).cmd@)
            } else {
                old(self).show_help
            },
            final(self).mode == match action {
                AppAction::EnterMode(mode) => mode,
                AppAction::CmdEnter => AppMode::Normal,
                _ => old(self).mode,
            },
            !(action is EnterMode || action is CmdPop || action is CmdPush) ==> final(self).cmd@ == old(self).cmd@,
            !(action is InsertChar || action is DeleteChar || action is BackspaceLine || action is NewLine)
                ==> final(self).doc == old(self).doc,
            !(action is CursorViewChange || action is InsertChar || action is DeleteChar || action is BackspaceLine
                || action is NewLine) ==> final(self).cursor == old(self).cursor,
            !(action is CursorViewChange || action is BackspaceLine) ==> final(self).view_shift == old(self).view_shift,
            match action {
                AppAction::Nothing => *final(self) == *old(self),
                AppAction::CursorViewChange { cursor, view_shift } => {
                    &&& final(self).cursor == cursor
                    &&& final(self).view_shift == view_shift
                    &&& final(self).mode == old(self).mode
                    &&& final(self).doc == old(self).doc
                    &&& final(self).cmd@ == old(self).cmd@
                },
                AppAction::EnterMode(mode) => {
                    &&& final(self).mode == mode
                    &&& final(self).cmd@ == if mode == AppMode::Command { Seq::<char>::empty() } else { old(self).cmd@ }
                    &&& final(self).cursor == old(self).cursor
                    &&& final(self).doc == old(self).doc
                },
                AppAction::CmdPop => {
                    &&& final(self).cmd@ == if old(self).cmd@.len() > 0 { old(self).cmd@.drop_last() } else { old(self).cmd@ }
                    &&& final(self).mode == old(self).mode
                },
                AppAction::CmdPush(ch) => {
                    &&& final(self).cmd@ == old(self).cmd@.push(ch)
                    &&& final(self).mode == old(self).mode
                },
                AppAction::CmdEnter => {
                    &&& final(self).mode == AppMode::Normal
                    &&& final(self).running == (old(self).running && !quits(old(self).cmd@))
                    &&& final(self).show_help == (old(self).show_help || asks_help(old(self).cmd@))
                    &&& final(self).cmd@ == old(self).cmd@
                },
                AppAction::InsertChar(ch) => {
                    &&& final(self).doc.lines_view() == if (old(self).cursor.row as int) < old(self).doc.lines_view().len() {
                        old(self).doc.lines_view().update(
                            old(self).cursor.row as int,
                            crate::document::insert_in_line(
                                old(self).doc.lines_view()[old(self).cursor.row as int],
                                old(self).cursor.col as int,
                                ch,
                            ),
                        )
                    } else {
                        old(self).doc.lines_view().push(seq![ch])
                    }
                    &&& final(self).doc.is_dirty()
                    &&& final(self).cursor == moved(old(self).cursor, Move::Right)
                },
                AppAction::DeleteChar => {
                    &&& final(self).doc.lines_view() == ({
                        let at = moved(old(self).cursor, Move::Left);
                        if (at.row as int) < old(self).doc.lines_view().len() {
                            old(self).doc.lines_view().update(
                                at.row as int,
                                crate::document::delete_in_line(old(self).doc.lines_view()[at.row as int], at.col as int),
                            )
                        } else {
                            old(self).doc.lines_view()
                        }
                    })
                    &&& final(self).doc.is_dirty()
                    &&& final(self).cursor == moved(old(self).cursor, Move::Left)
                },
                AppAction::BackspaceLine => {
                    let row = old(self).cursor.row as int;
                    let lines = old(self).doc.lines_view();
                    let rest = lines.remove(row);
                    let up = if row == 0 { 0 } else { row - 1 };
                    &&& final(self).doc.lines_view() == rest.update(up, rest[up] + lines[row])
                    &&& final(self).doc.is_dirty()
                    &&& final(self).cursor.col == (sat_sub(
                        if up < lines.len() { lines[up].len() as int } else { 0 },
                        old(self).view_shift.col as int,
                    ) as u16)
                    &&& final(self).cursor.row == old(self).cursor.row.saturating_sub(1)
                    &&& final(self).view_shift.row == if row != 0 {
                        old(self).view_shift.row
                    } else {
                        old(self).view_shift.row.saturating_sub(1)
                    }
                    &&& final(self).view_shift.col == old(self).view_shift.col
                },
                AppAction::NewLine => {
                    let l = old(self).doc.lines_view()[old(self).cursor.row as int];
                    let c = old(self).cursor.col as int;
                    &&& final(self).doc.lines_view() == old(self).doc.lines_view().update(
                        old(self).cursor.row as int,
                        l.subrange(0, c),
                    ).insert(old(self).cursor.row.saturating_add(1) as int, l.subrange(c, l.len() as int))
                    &&& final(self).doc.is_dirty()
                    &&& final(self).cursor == (Position { row: old(self).cursor.row.saturating_add(1), col: 0 })
                },
            },
    {
        match action {
            AppAction::Nothing => {},
            AppAction::CursorViewChange { cursor, view_shift } => {
                self.cursor.row = cursor.row;
                self.cursor.col = cursor.col;
                self.view_shift.row = view_shift.row;
                self.view_shift.col = view_shift.col;
            },
            AppAction::EnterMode(mode) => {
                if let AppMode::Command = mode {
                    self.cmd = String::new();
                }
                self.mode = mode;
            },
            AppAction::CmdPop => {
                let n = self.cmd.as_str().unicode_len();
                if n > 0 {
                    let shorter = String::from_str(self.cmd.as_str().substring_char(0, n - 1));
                    self.cmd = shorter;
                }
            },
            AppAction::CmdPush(ch) => push_char(&mut self.cmd, ch),
            AppAction::CmdEnter => {
                self.process_cmd();
                self.mode = AppMode::Normal;
            },
            AppAction::InsertChar(ch) => {
                self.doc.insert(self.cursor, ch);
                self.cursor.col = self.cursor.col.saturating_add(1);
            },
            AppAction::DeleteChar => {
                self.doc.delete(self.cursor.free_move(Move::Left));
                self.cursor.col = self.cursor.col.saturating_sub(1);
            },
            AppAction::BackspaceLine => {
                let col = self.doc.get_line_len(self.cursor.row.saturating_sub(1) as usize).saturating_sub(
                    self.view_shift.col as usize,
                ) as u16;
                self.doc.merge_line_into_up(self.cursor.row as usize);
                self.cursor.col = col;
                if self.cursor.row != 0 {
                    self.cursor.row = self.cursor.row.saturating_sub(1);
                } else {
                    self.view_shift.row = self.view_shift.row.saturating_sub(1);
                }
            },
            AppAction::NewLine => {
                self.doc.split_to_two_line(self.cursor);
                self.cursor.col = 0;
                self.cursor.row = self.cursor.row.saturating_add(1);
            },
        }
    }

    /// Runs the typed command: `q`, `quit` or `exit` stop the editor, `h` or
    /// `help` show the help; anything else does nothing.
    pub fn process_cmd(&mut self)
        ensures
            final(self).running == (old(self).running && !quits(old(self).cmd@)),
            final(self).show_help == (old(self).show_help || asks_help(old(self).cmd@)),
            final(self).mode == old(self).mode,
            final(self).cursor == old(self).cursor,
            final(self).view_shift == old(self).view_shift,
            final(self).doc == old(self).doc,
            final(self).cmd == old(self).cmd,
    {
        proof {
            reveal_strlit("q");
            reveal_strlit("quit");
            reveal_strlit("exit");
            reveal_strlit("h");
            reveal_strlit("help");
            assert("q"@[0] == 'q' && "quit"@[0] == 'q' && "exit"@[0] == 'e');
            assert("h"@[0] == 'h' && "help"@[0] == 'h');
            assert(!(quits(self.cmd@) && asks_help(self.cmd@)));
        }
        let c = self.cmd.as_str();
        if str_eq(c, "q") || str_eq(c, "quit") || str_eq(c, "exit") {
            self.running = false;
        } else if str_eq(c, "h") || str_eq(c, "help") {
            self.show_help = true;
        }
    }

    /// Keys of insert mode: characters are typed, backspace deletes or joins
    /// lines, enter breaks the line, escape leaves the mode.
    pub fn handle_event_insert(&self, event: InputEvent) -> (r: AppAction)
        ensures
            r == insert_action(self, event),
    {
        match event {
            InputEvent::Key(k) => match k {
                Key::Esc => AppAction::EnterMode(AppMode::Normal),
                Key::Char(ch) => AppAction::InsertChar(ch),
                Key::Backspace => {
                    if self.cursor.col != 0 {
                        AppAction::DeleteChar
                    } else if self.cursor.row != 0 || self.view_shift.row != 0 {
                        AppAction::BackspaceLine
                    } else {
                        AppAction::Nothing
                    }
                },
                Key::Enter => AppAction::NewLine,
                _ => AppAction::Nothing,
            },
            _ => AppAction::Nothing,
        }
    }

    /// Keys of command mode: characters build the command, backspace removes
    /// the last one, enter runs it, escape leaves the mode.
    pub fn handle_event_command(&self, event: InputEvent) -> (r: AppAction)
        ensures
            r == command_action(event),
    {
        match event {
            InputEvent::Key(k) => match k {
                Key::Esc => AppAction::EnterMode(AppMode::Normal),
                Key::Char(ch) => AppAction::CmdPush(ch),
                Key::Backspace => AppAction::CmdPop,
                Key::Enter => AppAction::CmdEnter,
                _ => AppAction::Nothing,
            },
            _ => AppAction::Nothing,
        }
    }
}

} // verus!
