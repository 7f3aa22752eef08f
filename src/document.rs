//! A document as a list of lines, edited at cell positions.

use vstd::prelude::*;
use vstd::pervasive::VecAdditionalExecFns;
use vstd::string::{StrSliceExecFns, StringExecFns};

use crate::app::Position;
use crate::text::{char_string, push_char};

verus! {

broadcast use vstd::string::group_string_axioms;

/// `l` without a carriage return that ends it.
pub open spec fn strip_cr(l: Seq<char>) -> Seq<char> {
    if l.len() > 0 && l.last() == '\r' {
        l.drop_last()
    } else {
        l
    }
}

/// Reads `s` from the front: the lines finished by a `'\n'` (each without a
/// `'\r'` before that terminator), and the unfinished rest.
pub open spec fn scan_lines(s: Seq<char>) -> (Seq<Seq<char>>, Seq<char>)
    decreases s.len(),
{
    if s.len() == 0 {
        (Seq::empty(), Seq::empty())
    } else {
        let prev = scan_lines(s.drop_last());
        if s.last() == '\n' {
            (prev.0.push(strip_cr(prev.1)), Seq::empty())
        } else {
            (prev.0, prev.1.push(s.last()))
        }
    }
}

/// The lines of `s`: split at `"\n"` or `"\r\n"`, with a final terminator
/// optional.
pub open spec fn text_lines(s: Seq<char>) -> Seq<Seq<char>> {
    let r = scan_lines(s);
    if r.1.len() > 0 {
        r.0.push(r.1)
    } else {
        r.0
    }
}

/// Line `l` after `DocLine::insert(at, ch)`.
pub open spec fn insert_in_line(l: Seq<char>, at: int, ch: char) -> Seq<char> {
    if at < l.len() {
        l.insert(at, ch)
    } else {
        l.push(ch)
    }
}

/// Line `l` after `DocLine::delete(at)`.
pub open spec fn delete_in_line(l: Seq<char>, at: int) -> Seq<char> {
    if at < l.len() {
        l.remove(at)
    } else {
        l
    }
}

/// The text a list of lines is saved as: each line followed by `'\n'`.
pub open spec fn joined_lines(ls: Seq<Seq<char>>) -> Seq<char>
    decreases ls.len(),
{
    if ls.len() == 0 {
        Seq::empty()
    } else {
        joined_lines(ls.drop_last()) + ls.last() + seq!['\n']
    }
}

/// One line of a document.
#[derive(Debug)]
pub struct DocLine {
    content: String,
}

impl View for DocLine {
    type V = Seq<char>;

    closed spec fn view(&self) -> Seq<char> {
        self.content@
    }
}

/// Failures of saving a document.
#[derive(Debug, PartialEq, Eq)]
pub enum DocumentError {
    /// Writing the file failed; the message says why.
    IoErr(String),
    /// The document has no file to be saved to.
    NoUri,
}

impl DocLine {
    /// A line holding a copy of `ln`.
    pub fn from_str(ln: &str) -> (r: DocLine)
        ensures
            r@ == ln@,
    {
        DocLine { content: String::from_str(ln) }
    }

    /// Inserts `ch` before codepoint `at`, or appends it when `at` is at or
    /// past the end.
    pub fn insert(&mut self, at: usize, ch: char)
        ensures
            at < old(self)@.len() ==> final(self)@ == old(self)@.insert(at as int, ch),
            at >= old(self)@.len() ==> final(self)@ == old(self)@.push(ch),
    {
        let n = self.content.as_str().unicode_len();
        let c = char_string(ch);
        if at < n {
            let mut s = String::from_str(self.content.as_str().substring_char(0, at));
            s.append(c.as_str());
            s.append(self.content.as_str().substring_char(at, n));
            assert(self@.subrange(0, at as int) + seq![ch] + self@.subrange(at as int, n as int)
                == self@.insert(at as int, ch));
            self.content = s;
        } else {
            self.content.append(c.as_str());
        }
    }

    /// Removes codepoint `at`; past the end nothing changes.
    pub fn delete(&mut self, at: usize)
        ensures
            at < old(self)@.len() ==> final(self)@ == old(self)@.remove(at as int),
            at >= old(self)@.len() ==> final(self)@ == old(self)@,
    {
        let n = self.content.as_str().unicode_len();
        if at < n {
            let mut s = String::from_str(self.content.as_str().substring_char(0, at));
            s.append(self.content.as_str().substring_char(at + 1, n));
            assert(self@.subrange(0, at as int) + self@.subrange(at + 1, n as int) == self@.remove(at as int));
            self.content = s;
        }
    }
}

/// A document: its lines, whether it changed since it was last saved, and
/// the file it belongs to, if any.
#[derive(Debug)]
pub struct Document {
    lines: Vec<DocLine>,
    dirty: bool,
    uri: Option<String>,
}

impl Default for Document {
    fn default() -> (r: Document)
        ensures
            r.lines_view() == Seq::<Seq<char>>::empty(),
            !r.is_dirty(),
            r.uri_view() is None,
    {
        let r = Document { lines: Vec::new(), dirty: false, uri: None };
        assert(r.lines_view() == Seq::<Seq<char>>::empty());
        r
    }
}

impl Document {
    /// The text of each line, in order.
    pub closed spec fn lines_view(&self) -> Seq<Seq<char>> {
        self.lines@.map_values(|l: DocLine| l@)
    }

    /// Whether the document changed since it was opened or saved.
    pub closed spec fn is_dirty(&self) -> bool {
        self.dirty
    }

    /// The file the document belongs to.
    pub closed spec fn uri_view(&self) -> Option<Seq<char>> {
        match self.uri {
            Some(u) => Some(u@),
            None => None,
        }
    }

    /// Three lines of greeting, not yet saved anywhere.
    pub fn hello_world() -> (r: Document)
        ensures
            r.lines_view() == seq!["Hello World!"@, "Hello World!"@, "Hello World!"@],
            r.is_dirty(),
            r.uri_view() is None,
    {
        let lines = vec![
            DocLine::from_str("Hello World!"),
            DocLine::from_str("Hello World!"),
            DocLine::from_str("Hello World!"),
        ];
        let r = Document { lines, dirty: true, uri: None };
        assert(r.lines_view() == seq!["Hello World!"@, "Hello World!"@, "Hello World!"@]);
        r
    }

    /// The document of file `uri`, whose text is `content`.
    pub fn open(uri: &str, content: &str) -> (r: Document)
        ensures
            r.lines_view() == text_lines(content@),
            !r.is_dirty(),
            r.uri_view() == Some(uri@),
    {
        // counting the characters bounds the line scanner's counters
        let _count = content.unicode_len();
        let lines = split_lines(content);
        Document { lines, dirty: false, uri: Some(String::from_str(uri)) }
    }

    /// What saving writes, and where: each line followed by a line feed, to
    /// the document's file. Without a file this is `NoUri`.
    pub fn save(&self) -> (r: Result<(String, String), DocumentError>)
        ensures
            self.uri_view() is None <==> r is Err,
            r is Err ==> r == Err::<(String, String), DocumentError>(DocumentError::NoUri),
            r matches Ok((u, text)) ==> Some(u@) == self.uri_view() && text@ == joined_lines(self.lines_view()),
    {
        let uri = match &self.uri {
            Some(u) => String::from_str(u.as_str()),
            None => {
                return Err(DocumentError::NoUri);
            },
        };
        let nl = char_string('\n');
        let mut out = String::new();
        let mut j: usize = 0;
        while j < self.lines.len()
            invariant
                j <= self.lines@.len(),
                nl@ == seq!['\n'],
                out@ == joined_lines(self.lines_view().subrange(0, j as int)),
            decreases self.lines@.len() - j,
        {
            assert(self.lines_view().subrange(0, j + 1).drop_last() == self.lines_view().subrange(0, j as int));
            out.append(self.lines[j].content.as_str());
            out.append(nl.as_str());
            j += 1;
        }
        assert(self.lines_view().subrange(0, j as int) == self.lines_view());
        Ok((uri, out))
    }

    /// Records that the document's text was written to its file.
    pub fn mark_saved(&mut self)
        ensures
            !final(self).is_dirty(),
            final(self).lines_view() == old(self).lines_view(),
            final(self).uri_view() == old(self).uri_view(),
    {
        self.dirty = false;
    }

    /// Inserts `ch` in line `at.row` before column `at.col` (appending past
    /// its end). A row past the last line adds a new last line holding `ch`.
    pub fn insert(&mut self, at: Position, ch: char)
        ensures
            final(self).is_dirty(),
            final(self).uri_view() == old(self).uri_view(),
            final(self).lines_view() == if (at.row as int) < old(self).lines_view().len() {
                old(self).lines_view().update(
                    at.row as int,
                    insert_in_line(old(self).lines_view()[at.row as int], at.col as int, ch),
                )
            } else {
                old(self).lines_view().push(seq![ch])
            },
    {
        self.dirty = true;
        let row = at.row as usize;
        let mut ln = DocLine { content: String::new() };
        if row < self.lines.len() {
            self.lines.set_and_swap(row, &mut ln);
            ln.insert(at.col as usize, ch);
            self.lines.set_and_swap(row, &mut ln);
            assert(self.lines_view() == old(self).lines_view().update(
                row as int,
                insert_in_line(old(self).lines_view()[row as int], at.col as int, ch),
            ));
        } else {
            ln.insert(at.col as usize, ch);
            self.lines.push(ln);
            assert(Seq::<char>::empty().push(ch) == seq![ch]);
            assert(self.lines_view() == old(self).lines_view().push(seq![ch]));
        }
    }

    /// Removes the character at column `at.col` of line `at.row`; nothing
    /// changes past the end of the line or of the document.
    pub fn delete(&mut self, at: Position)
        ensures
            final(self).is_dirty(),
            final(self).uri_view() == old(self).uri_view(),
            final(self).lines_view() == if (at.row as int) < old(self).lines_view().len() {
                old(self).lines_view().update(
                    at.row as int,
                    delete_in_line(old(self).lines_view()[at.row as int], at.col as int),
                )
            } else {
                old(self).lines_view()
            },
    {
        self.dirty = true;
        let row = at.row as usize;
        if row < self.lines.len() {
            let mut ln = DocLine { content: String::new() };
            self.lines.set_and_swap(row, &mut ln);
            ln.delete(at.col as usize);
            self.lines.set_and_swap(row, &mut ln);
            assert(self.lines_view() == old(self).lines_view().update(
                row as int,
                delete_in_line(old(self).lines_view()[row as int], at.col as int),
            ));
        }
    }

    /// Removes line `row` and appends its text to the line above it (for the
    /// first line, to the line that follows it).
    pub fn merge_line_into_up(&mut self, row: usize)
        requires
            row < old(self).lines_view().len(),
            old(self).lines_view().len() >= 2,
        ensures
            final(self).is_dirty(),
            final(self).uri_view() == old(self).uri_view(),
            final(self).lines_view() == ({
                let rest = old(self).lines_view().remove(row as int);
                let up = if row == 0 { 0 } else { row - 1 };
                rest.update(up, rest[up] + old(self).lines_view()[row as int])
            }),
    {
        self.dirty = true;
        let line = self.lines.remove(row);
        let up = row.saturating_sub(1);
        let mut ln = DocLine { content: String::new() };
        self.lines.set_and_swap(up, &mut ln);
        ln.content.append(line.content.as_str());
        self.lines.set_and_swap(up, &mut ln);
        proof {
            let rest = old(self).lines_view().remove(row as int);
            assert(old(self).lines@.remove(row as int).map_values(|l: DocLine| l@) == rest);
            assert(self.lines_view() == rest.update(up as int, rest[up as int] + old(self).lines_view()[row as int]));
        }
    }

    /// Breaks line `at.row` before column `at.col`; the part from that column
    /// becomes the next line.
    pub fn split_to_two_line(&mut self, at: Position)
        requires
            (at.row as int) < old(self).lines_view().len(),
            (at.col as int) <= old(self).lines_view()[at.row as int].len(),
        ensures
            final(self).is_dirty(),
            final(self).uri_view() == old(self).uri_view(),
            final(self).lines_view() == ({
                let l = old(self).lines_view()[at.row as int];
                old(self).lines_view().update(at.row as int, l.subrange(0, at.col as int)).insert(
                    at.row.saturating_add(1) as int,
                    l.subrange(at.col as int, l.len() as int),
                )
            }),
    {
        self.dirty = true;
        let row = at.row as usize;
        let col = at.col as usize;
        let mut ln = DocLine { content: String::new() };
        self.lines.set_and_swap(row, &mut ln);
        let n = ln.content.as_str().unicode_len();
        let mut head = DocLine::from_str(ln.content.as_str().substring_char(0, col));
        let tail = DocLine::from_str(ln.content.as_str().substring_char(col, n));
        self.lines.set_and_swap(row, &mut head);
        let ghost mid = self.lines@;
        self.lines.insert(at.row.saturating_add(1) as usize, tail);
        proof {
            let l = old(self).lines_view()[at.row as int];
            let lv = old(self).lines_view().update(at.row as int, l.subrange(0, at.col as int));
            assert(mid.map_values(|x: DocLine| x@) == lv);
            assert(self.lines_view() == lv.insert(
                at.row.saturating_add(1) as int,
                l.subrange(at.col as int, l.len() as int),
            ));
        }
    }

    /// Sets the file the document belongs to.
    pub fn set_uri(&mut self, uri: &str)
        ensures
            final(self).uri_view() == Some(uri@),
            final(self).lines_view() == old(self).lines_view(),
            final(self).is_dirty() == old(self).is_dirty(),
    {
        self.uri = Some(String::from_str(uri));
    }

    /// Whether the document changed since it was opened or saved.
    pub fn dirty(&self) -> (r: bool)
        ensures
            r == self.is_dirty(),
    {
        self.dirty
    }

    /// The text of line `ind`, if there is such a line.
    pub fn get_line(&self, ind: usize) -> (r: Option<&str>)
        ensures
            r is Some <==> ind < self.lines_view().len(),
            r matches Some(s) ==> s@ == self.lines_view()[ind as int],
    {
        if ind < self.lines.len() {
            Some(self.lines[ind].content.as_str())
        } else {
            None
        }
    }

    /// The number of characters of line `ind`; 0 where there is no such line.
    pub fn get_line_len(&self, ind: usize) -> (r: usize)
        ensures
            r == if ind < self.lines_view().len() { self.lines_view()[ind as int].len() } else { 0 },
    {
        if ind < self.lines.len() {
            self.lines[ind].content.as_str().unicode_len()
        } else {
            0
        }
    }

    /// The number of lines.
    pub fn line_count(&self) -> (r: usize)
        ensures
            r == self.lines_view().len(),
    {
        self.lines.len()
    }
}

/// Splits `txt` into document lines as `text_lines` describes.
fn split_lines(txt: &str) -> (r: Vec<DocLine>)
    requires
        txt@.len() <= usize::MAX,
    ensures
        r@.map_values(|l: DocLine| l@) == text_lines(txt@),
{
    let mut done: Vec<DocLine> = Vec::new();
    let mut cur = String::new();
    let mut cur_len: usize = 0;
    let mut i: usize = 0;
    for c in it: txt.chars()
        invariant
            i == it.index(),
            it.seq() == txt@,
            txt@.len() <= usize::MAX,
            cur_len == cur@.len(),
            cur_len <= i,
            (done@.map_values(|l: DocLine| l@), cur@) == scan_lines(txt@.subrange(0, i as int)),
    {
        let ghost prefix = txt@.subrange(0, i as int);
        let ghost before = done@;
        assert(txt@.subrange(0, i + 1).drop_last() == prefix);
        assert(txt@.subrange(0, i + 1).last() == c);
        if c == '\n' {
            let line = if cur_len > 0 && cur.as_str().get_char(cur_len - 1) == '\r' {
                String::from_str(cur.as_str().substring_char(0, cur_len - 1))
            } else {
                cur
            };
            assert(line@ == strip_cr(scan_lines(prefix).1));
            done.push(DocLine { content: line });
            assert(done@.map_values(|l: DocLine| l@) == before.map_values(|l: DocLine| l@).push(line@));
            cur = String::new();
            cur_len = 0;
        } else {
            push_char(&mut cur, c);
            cur_len = cur_len + 1;
        }
        i = i + 1;
    }
    assert(txt@.subrange(0, i as int) == txt@);
    if cur_len > 0 {
        let ghost before = done@;
        done.push(DocLine { content: cur });
        assert(done@.map_values(|l: DocLine| l@) == before.map_values(|l: DocLine| l@).push(scan_lines(txt@).1));
    }
    done
}

} // verus!
