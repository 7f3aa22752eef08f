use vix::app::Position;
use vix::document::{DocLine, Document, DocumentError};

fn lines(d: &Document) -> Vec<String> {
    (0..d.line_count()).map(|i| String::from(d.get_line(i).unwrap())).collect()
}

fn at(row: u16, col: u16) -> Position {
    Position { row, col }
}

#[test]
fn open_splits_like_str_lines() {
    for text in ["", "a", "a\n", "a\r\nb\n", "\n", "a\n\nb", "x\ry", "tail\r"] {
        let d = Document::open("f.txt", text);
        let expected: Vec<String> = text.lines().map(String::from).collect();
        assert_eq!(lines(&d), expected, "text {:?}", text);
        assert!(!d.dirty());
    }
}

#[test]
fn hello_world_has_three_lines() {
    let d = Document::hello_world();
    assert_eq!(lines(&d), vec!["Hello World!"; 3]);
    assert!(d.dirty());
    assert_eq!(d.save(), Err(DocumentError::NoUri));
}

#[test]
fn save_writes_each_line_with_newline() {
    let mut d = Document::open("notes.txt", "one\ntwo");
    d.insert(at(0, 3), '!');
    assert!(d.dirty());
    assert_eq!(d.save(), Ok((String::from("notes.txt"), String::from("one!\ntwo\n"))));
    d.mark_saved();
    assert!(!d.dirty());
    d.set_uri("other.txt");
    assert_eq!(d.save().unwrap().0, "other.txt");
}

#[test]
fn insert_and_delete_characters() {
    let mut d = Document::open("f", "héllo");
    d.insert(at(0, 1), 'X');
    assert_eq!(d.get_line(0), Some("hXéllo"));
    d.insert(at(0, 99), '?');
    assert_eq!(d.get_line(0), Some("hXéllo?"));
    d.insert(at(5, 0), 'n');
    assert_eq!(lines(&d), vec!["hXéllo?", "n"]);
    d.delete(at(0, 2));
    assert_eq!(d.get_line(0), Some("hXllo?"));
    d.delete(at(0, 50));
    d.delete(at(9, 0));
    assert_eq!(lines(&d), vec!["hXllo?", "n"]);
    assert_eq!(d.get_line_len(0), 6);
    assert_eq!(d.get_line_len(7), 0);
    assert_eq!(d.get_line(7), None);
}

#[test]
fn split_and_merge_lines() {
    let mut d = Document::open("f", "abcd\nef");
    d.split_to_two_line(at(0, 2));
    assert_eq!(lines(&d), vec!["ab", "cd", "ef"]);
    d.merge_line_into_up(1);
    assert_eq!(lines(&d), vec!["abcd", "ef"]);
    d.merge_line_into_up(0);
    assert_eq!(lines(&d), vec!["efabcd"]);
    assert_eq!(d.line_count(), 1);
}

#[test]
fn doc_line_edits() {
    let mut l = DocLine::from_str("ab");
    l.insert(1, 'x');
    l.insert(10, 'z');
    l.delete(0);
    l.delete(10);
    let mut d = Document::default();
    assert_eq!(d.line_count(), 0);
    d.insert(at(0, 0), 'q');
    assert_eq!(lines(&d), vec!["q"]);
}
