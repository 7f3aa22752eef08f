use vix::piece_table::{PieceRecord, PieceTable, PieceTableError, PieceType};

fn record(ty: PieceType, beg: usize, len: usize, line_breaks: Vec<usize>) -> PieceRecord {
    PieceRecord { ty, beg, len, line_breaks }
}

#[test]
fn round_trip_plain_and_multibyte() {
    for s in ["", "a", "0123456789", "a\nb\nc\n", "héllo wörld ✓ 日本語\n"] {
        assert_eq!(PieceTable::from_str(s).content(), s);
        assert_eq!(PieceTable::from_string(String::from(s)).content(), s);
    }
}

#[test]
fn empty_table() {
    let t = PieceTable::new();
    assert_eq!(t.content(), "");
    assert_eq!(t.length(), 0);
    assert_eq!(t.lines_count(), 1);
    assert_eq!(t.line(0), Ok(String::new()));
    assert_eq!(t.pieces().len(), 1);
    assert_eq!(t.pieces()[0].len, 0);
}

#[test]
fn insert_then_read() {
    let mut t = PieceTable::from_str("0123456789");
    assert_eq!(t.insert(10, "a"), Ok(()));
    assert_eq!(t.content(), "0123456789a");
    assert_eq!(t.length(), 11);
}

#[test]
fn delete_then_read() {
    let mut t = PieceTable::from_str("0123456789a");
    assert_eq!(t.delete(10, 1), Ok(()));
    assert_eq!(t.content(), "0123456789");
    assert_eq!(t.length(), 10);
}

#[test]
fn split_in_middle_of_piece() {
    let mut t = PieceTable::from_str("0123456789");
    assert_eq!(t.insert(5, "X"), Ok(()));
    assert_eq!(t.content(), "01234X56789");
    let p = t.pieces();
    assert_eq!(p.len(), 4);
    assert_eq!(p[0].len, 0);
    assert_eq!((p[1].ty, p[1].beg, p[1].len), (PieceType::Orig, 0, 5));
    assert_eq!((p[2].ty, p[2].beg, p[2].len), (PieceType::Add, 0, 1));
    assert_eq!((p[3].ty, p[3].beg, p[3].len), (PieceType::Orig, 5, 5));
    assert_eq!(t.line(0), Ok(String::from("01234X56789")));
}

#[test]
fn line_accounting() {
    let t = PieceTable::from_str("a\nb\nc");
    assert_eq!(t.lines_count(), 3);
    assert_eq!(t.line(0), Ok(String::from("a")));
    assert_eq!(t.line(1), Ok(String::from("b")));
    assert_eq!(t.line(2), Ok(String::from("c")));
    assert_eq!(t.line(3), Err(PieceTableError::OutOfBounds));
}

#[test]
fn trailing_newline_gives_empty_last_line() {
    let t = PieceTable::from_str("a\nb\n");
    assert_eq!(t.lines_count(), 3);
    assert_eq!(t.line(1), Ok(String::from("b")));
    assert_eq!(t.line(2), Ok(String::new()));
}

#[test]
fn line_breaks_are_cached_per_piece() {
    let t = PieceTable::from_str("ab\ncd\n\ne");
    assert_eq!(t.pieces()[1].line_breaks, vec![2, 5, 6]);
    let mut t = t;
    assert_eq!(t.insert(4, "x\ny"), Ok(()));
    assert_eq!(t.content(), "ab\ncx\nyd\n\ne");
    let p = t.pieces();
    assert_eq!(p[1].line_breaks, vec![2]);
    assert_eq!(p[2].line_breaks, vec![1]);
    assert_eq!(p[3].line_breaks, vec![1, 2]);
    assert_eq!(t.lines_count(), 5);
    assert_eq!(t.line(1), Ok(String::from("cx")));
    assert_eq!(t.line(2), Ok(String::from("yd")));
    assert_eq!(t.line(3), Ok(String::new()));
    assert_eq!(t.line(4), Ok(String::from("e")));
}

#[test]
fn lines_across_pieces() {
    let mut t = PieceTable::new();
    assert_eq!(t.insert(0, "one\ntw"), Ok(()));
    assert_eq!(t.insert(6, "o\nthree"), Ok(()));
    assert_eq!(t.insert(0, "zero\n"), Ok(()));
    assert_eq!(t.content(), "zero\none\ntwo\nthree");
    assert_eq!(t.lines_count(), 4);
    assert_eq!(t.line(0), Ok(String::from("zero")));
    assert_eq!(t.line(1), Ok(String::from("one")));
    assert_eq!(t.line(2), Ok(String::from("two")));
    assert_eq!(t.line(3), Ok(String::from("three")));
}

#[test]
fn no_op_delete_keeps_everything() {
    let mut t = PieceTable::from_str("0123456789");
    assert_eq!(t.insert(3, "abc"), Ok(()));
    for k in 0..=t.length() {
        let before = t.content();
        let len = t.length();
        assert_eq!(t.delete(k, 0), Ok(()));
        assert_eq!(t.content(), before);
        assert_eq!(t.length(), len);
    }
}

#[test]
fn out_of_bounds_edits_leave_document() {
    let mut t = PieceTable::from_str("hello");
    let n = t.length();
    assert_eq!(t.insert(n + 1, "x"), Err(PieceTableError::OutOfBounds));
    assert_eq!(t.content(), "hello");
    assert_eq!(t.delete(n, 1), Err(PieceTableError::OutOfBounds));
    assert_eq!(t.content(), "hello");
    assert_eq!(t.delete(2, 4), Err(PieceTableError::OutOfBounds));
    assert_eq!(t.length(), 5);
    assert_eq!(t.insert_char_at(6, 'x'), Err(PieceTableError::OutOfBounds));
    assert_eq!(t.delete_char_at(0), Err(PieceTableError::OutOfBounds));
    assert_eq!(t.delete_char_at(6), Err(PieceTableError::OutOfBounds));
    assert_eq!(t.content(), "hello");
}

fn model_delete(s: &str, at: usize, n: usize) -> String {
    let c: Vec<char> = s.chars().collect();
    c[..at].iter().chain(c[at + n..].iter()).collect()
}

#[test]
fn delete_across_piece_boundaries() {
    let mut t = PieceTable::from_str("0123456789");
    assert_eq!(t.insert(2, "AB"), Ok(()));
    assert_eq!(t.insert(8, "CD"), Ok(()));
    assert_eq!(t.insert(14, "EF"), Ok(()));
    let before = t.content();
    assert_eq!(before, "01AB2345CD6789EF");
    assert!(t.pieces().len() >= 6);
    assert_eq!(t.delete(3, 8), Ok(()));
    assert_eq!(t.content(), model_delete(&before, 3, 8));
    assert_eq!(t.content(), "01A789EF");
    assert_eq!(t.length(), 8);
}

#[test]
fn delete_whole_pieces_and_everything() {
    let mut t = PieceTable::from_str("abc");
    assert_eq!(t.insert(3, "def"), Ok(()));
    assert_eq!(t.insert(0, "xyz"), Ok(()));
    assert_eq!(t.content(), "xyzabcdef");
    assert_eq!(t.delete(3, 3), Ok(()));
    assert_eq!(t.content(), "xyzdef");
    assert_eq!(t.delete(0, 6), Ok(()));
    assert_eq!(t.content(), "");
    assert_eq!(t.length(), 0);
    assert_eq!(t.lines_count(), 1);
    assert_eq!(t.pieces()[0].len, 0);
}

#[test]
fn delete_inside_one_piece_keeps_both_ends() {
    let mut t = PieceTable::from_str("a\nbcdef\ng");
    assert_eq!(t.delete(3, 2), Ok(()));
    assert_eq!(t.content(), "a\nbef\ng");
    assert_eq!(t.lines_count(), 3);
    assert_eq!(t.line(1), Ok(String::from("bef")));
    assert_eq!(t.line(2), Ok(String::from("g")));
}

#[test]
fn multibyte_offsets_are_codepoints() {
    let mut t = PieceTable::from_str("añb日c");
    assert_eq!(t.length(), 5);
    assert_eq!(t.insert(2, "é"), Ok(()));
    assert_eq!(t.content(), "añéb日c");
    assert_eq!(t.delete(4, 1), Ok(()));
    assert_eq!(t.content(), "añébc");
}

#[test]
fn single_character_edits() {
    let mut t = PieceTable::from_str("ac");
    assert_eq!(t.insert_char_at(1, 'b'), Ok(()));
    assert_eq!(t.content(), "abc");
    assert_eq!(t.insert_char_at(3, '\n'), Ok(()));
    assert_eq!(t.lines_count(), 2);
    // a backspace at offset 1 removes the codepoint before it
    assert_eq!(t.delete_char_at(1), Ok(()));
    assert_eq!(t.content(), "bc\n");
    assert_eq!(t.delete_char_at(3), Ok(()));
    assert_eq!(t.content(), "bc");
    assert_eq!(t.delete_char_at(0), Err(PieceTableError::OutOfBounds));
    assert_eq!(t.content(), "bc");
}

#[test]
fn delete_keeps_left_and_right_parts() {
    let mut t = PieceTable::from_str("ab\ncdef\ngh");
    assert_eq!(t.delete(4, 3), Ok(()));
    assert_eq!(t.content(), "ab\nc\ngh");
    let p = t.pieces();
    assert_eq!(p.len(), 3);
    assert_eq!((p[1].ty, p[1].beg, p[1].len, p[1].line_breaks.clone()), (PieceType::Orig, 0, 4, vec![2]));
    assert_eq!((p[2].ty, p[2].beg, p[2].len, p[2].line_breaks.clone()), (PieceType::Orig, 7, 3, vec![0]));
    assert_eq!(t.lines_count(), 3);
}

#[test]
fn length_matches_piece_sum_and_content() {
    let mut t = PieceTable::from_str("hello world");
    assert_eq!(t.insert(5, ","), Ok(()));
    assert_eq!(t.delete(0, 2), Ok(()));
    assert_eq!(t.insert(10, "!!"), Ok(()));
    let sum: usize = t.pieces().iter().map(|p| p.len).sum();
    assert_eq!(t.length(), sum);
    assert_eq!(t.length(), t.content().chars().count());
}

#[test]
fn record_split_rebases_breaks() {
    let mut r = record(PieceType::Add, 4, 6, vec![1, 3, 4]);
    let right = r.split(3).unwrap();
    assert_eq!((r.beg, r.len, r.line_breaks.clone()), (4, 3, vec![1]));
    assert_eq!((right.beg, right.len, right.line_breaks), (7, 3, vec![0, 1]));
    let mut r = record(PieceType::Orig, 0, 2, vec![1]);
    assert!(r.split(2).is_none());
    assert_eq!((r.len, r.line_breaks), (2, vec![1]));
}

#[test]
fn record_split_and_then_applies_to_left() {
    let mut r = record(PieceType::Orig, 0, 5, vec![0, 4]);
    let right = r.split_and_then(2, |mut left: PieceRecord| {
        left.len -= 1;
        left
    });
    let right = right.unwrap();
    assert_eq!((r.len, r.line_breaks.clone()), (1, vec![0]));
    assert_eq!((right.beg, right.len, right.line_breaks), (2, 3, vec![2]));
    let mut r = record(PieceType::Orig, 0, 5, vec![]);
    assert!(r.split_and_then(5, |l| l).is_none());
}
