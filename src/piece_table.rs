//! Piece table over two codepoint buffers: the text a document was opened
//! with, and an append-only buffer holding everything inserted since.

use vstd::prelude::*;
use vstd::string::{StrSliceExecFns, StringExecFns};

use crate::text::char_string;

verus! {

broadcast use vstd::string::group_string_axioms;

/// Codepoint indices of every line terminator of `s`, in ascending order.
pub open spec fn breaks_of(s: Seq<char>) -> Seq<int>
    decreases s.len(),
{
    if s.len() == 0 {
        Seq::empty()
    } else {
        let prev = breaks_of(s.drop_last());
        if s.last() == '\n' {
            prev.push(s.len() - 1)
        } else {
            prev
        }
    }
}

/// Every entry of `v` moved by `d`.
pub open spec fn shifted(v: Seq<int>, d: int) -> Seq<int> {
    v.map_values(|x: int| x + d)
}

/// A cached break list read as mathematical integers.
pub open spec fn as_ints(v: Seq<usize>) -> Seq<int> {
    v.map_values(|x: usize| x as int)
}

/// The break positions of a concatenation are those of the left part followed
/// by those of the right part, moved past the left part.
pub proof fn lemma_breaks_concat(a: Seq<char>, b: Seq<char>)
    ensures
        breaks_of(a + b) == breaks_of(a) + shifted(breaks_of(b), a.len() as int),
    decreases b.len(),
{
    if b.len() == 0 {
        assert(a + b == a);
        assert(shifted(breaks_of(b), a.len() as int) == Seq::<int>::empty());
        assert(breaks_of(a) + Seq::<int>::empty() == breaks_of(a));
    } else {
        let b0 = b.drop_last();
        lemma_breaks_concat(a, b0);
        assert((a + b).drop_last() == a + b0);
        assert((a + b).last() == b.last());
        let l = breaks_of(a);
        let r0 = shifted(breaks_of(b0), a.len() as int);
        if b.last() == '\n' {
            assert(shifted(breaks_of(b), a.len() as int) == r0.push(a.len() + b.len() - 1));
            assert((l + r0).push(a.len() + b.len() - 1) == l + r0.push(a.len() + b.len() - 1));
        } else {
            assert(shifted(breaks_of(b), a.len() as int) == r0);
        }
    }
}

/// Each break position lies inside `s`, holds a terminator, and the positions
/// strictly increase.
pub proof fn lemma_breaks_valid(s: Seq<char>)
    ensures
        forall|i: int| 0 <= i < breaks_of(s).len() ==> 0 <= #[trigger] breaks_of(s)[i] < s.len(),
        forall|i: int| 0 <= i < breaks_of(s).len() ==> s[#[trigger] breaks_of(s)[i]] == '\n',
        forall|i: int, j: int|
            0 <= i < j < breaks_of(s).len() ==> #[trigger] breaks_of(s)[i] < #[trigger] breaks_of(s)[j],
    decreases s.len(),
{
    if s.len() > 0 {
        let p = s.drop_last();
        lemma_breaks_valid(p);
        let b = breaks_of(s);
        assert forall|i: int| 0 <= i < b.len() implies s[#[trigger] b[i]] == '\n' by {
            if i < breaks_of(p).len() {
                assert(b[i] == breaks_of(p)[i]);
                assert(p[breaks_of(p)[i]] == '\n');
            }
        }
    }
}

/// Scans `txt` once and lists the codepoint index of each line terminator.
fn get_line_breaks(txt: &str) -> (r: Vec<usize>)
    requires
        txt@.len() <= usize::MAX,
    ensures
        as_ints(r@) == breaks_of(txt@),
{
    let mut ret: Vec<usize> = Vec::new();
    let mut i: usize = 0;
    for c in it: txt.chars()
        invariant
            i == it.index(),
            it.seq() == txt@,
            txt@.len() <= usize::MAX,
            as_ints(ret@) == breaks_of(txt@.subrange(0, i as int)),
    {
        let ghost prev = ret@;
        assert(txt@.subrange(0, i + 1).drop_last() == txt@.subrange(0, i as int));
        if c == '\n' {
            ret.push(i);
            assert(as_ints(ret@) == as_ints(prev).push(i as int));
        }
        i += 1;
    }
    assert(txt@.subrange(0, i as int) == txt@);
    ret
}

/// Strictly ascending, as a line-break cache always is.
pub open spec fn strictly_ascending(v: Seq<usize>) -> bool {
    forall|i: int, j: int| 0 <= i < j < v.len() ==> #[trigger] v[i] < #[trigger] v[j]
}

/// How many entries of `v` lie below `pos`.
pub open spec fn count_below(v: Seq<usize>, pos: int) -> int
    decreases v.len(),
{
    if v.len() == 0 {
        0
    } else {
        count_below(v.drop_last(), pos) + if v.last() < pos {
            1int
        } else {
            0int
        }
    }
}

/// Where an ascending `v` changes from entries below `pos` to the rest, that
/// index is the number of entries below `pos`.
proof fn lemma_count_below(v: Seq<usize>, pos: int, d: int)
    requires
        0 <= d <= v.len(),
        forall|i: int| 0 <= i < d ==> v[i] < pos,
        forall|i: int| d <= i < v.len() ==> v[i] >= pos,
    ensures
        count_below(v, pos) == d,
    decreases v.len(),
{
    if v.len() > 0 {
        let w = v.drop_last();
        if d == v.len() {
            lemma_count_below(w, pos, d - 1);
        } else {
            lemma_count_below(w, pos, d);
        }
    }
}

/// In an ascending list, the entries below `pos` come first.
proof fn lemma_count_below_split(v: Seq<usize>, pos: int)
    requires
        strictly_ascending(v),
    ensures
        0 <= count_below(v, pos) <= v.len(),
        forall|i: int| 0 <= i < count_below(v, pos) ==> v[i] < pos,
        forall|i: int| count_below(v, pos) <= i < v.len() ==> v[i] >= pos,
    decreases v.len(),
{
    if v.len() > 0 {
        let w = v.drop_last();
        assert(strictly_ascending(w)) by {
            assert forall|i: int, j: int| 0 <= i < j < w.len() implies #[trigger] w[i] < #[trigger] w[j] by {
                assert(v[i] < v[j]);
            }
        }
        lemma_count_below_split(w, pos);
        let c = count_below(w, pos);
        if v.last() < pos {
            if c < w.len() {
                assert(w[c] >= pos);
                assert(v[c] < v[v.len() - 1]);
            }
        }
        assert forall|i: int| 0 <= i < count_below(v, pos) implies v[i] < pos by {
            if i < w.len() {
                assert(v[i] == w[i]);
            }
        }
        assert forall|i: int| count_below(v, pos) <= i < v.len() implies v[i] >= pos by {
            if i < w.len() {
                assert(v[i] == w[i]);
            }
        }
    }
}

/// Which buffer a piece reads from.
#[derive(Debug, Clone, Copy, PartialEq, Eq, Structural)]
pub enum PieceType {
    /// The text the document was created from.
    Orig,
    /// The append-only buffer of inserted text.
    Add,
}

/// One run of the document: `len` codepoints of a buffer from index `beg`,
/// with the local indices of the line terminators inside the run.
#[derive(Debug)]
pub struct PieceRecord {
    pub ty: PieceType,
    pub beg: usize,
    pub len: usize,
    pub line_breaks: Vec<usize>,
}

impl PieceRecord {
    /// The break cache is ascending, lies inside the run, and the run's end
    /// is addressable.
    pub open spec fn well_formed(&self) -> bool {
        &&& strictly_ascending(self.line_breaks@)
        &&& forall|i: int| 0 <= i < self.line_breaks@.len() ==> #[trigger] self.line_breaks@[i] < self.len
        &&& self.beg + self.len <= usize::MAX
    }

    /// Number of cached breaks that fall before local index `pos`.
    pub open spec fn breaks_before(&self, pos: int) -> int {
        count_below(self.line_breaks@, pos)
    }

    /// Splits the run at local index `pos`. `self` keeps `[0, pos)`; the part
    /// `[pos, len)` is returned, with its breaks rebased to its own start.
    /// Splitting at the end changes nothing and returns `None`.
    pub fn split(&mut self, pos: usize) -> (r: Option<PieceRecord>)
        requires
            old(self).well_formed(),
            pos <= old(self).len,
        ensures
            final(self).well_formed(),
            pos == old(self).len ==> r is None && *final(self) == *old(self),
            pos < old(self).len ==> r is Some,
            left_part_of(*final(self), *old(self), pos as int),
            r matches Some(right) ==> right.well_formed() && right_part_of(right, *old(self), pos as int),
    {
        let d = partition_point(&self.line_breaks, pos);
        proof {
            lemma_count_below(self.line_breaks@, pos as int, d as int);
        }
        if pos == self.len {
            assert(self.line_breaks@.subrange(0, d as int) == self.line_breaks@);
            return None;
        }
        let ghost ob = self.line_breaks@;
        let tail = self.line_breaks.split_off(d);
        let mut right: Vec<usize> = Vec::new();
        let mut k: usize = 0;
        while k < tail.len()
            invariant
                k <= tail@.len(),
                right@.len() == k,
                d <= ob.len(),
                forall|i: int| d <= i < ob.len() ==> ob[i] >= pos,
                tail@ == ob.subrange(d as int, ob.len() as int),
                forall|i: int| 0 <= i < k ==> #[trigger] right@[i] + pos == tail@[i],
            decreases tail@.len() - k,
        {
            assert(tail@[k as int] == ob[k + d]);
            right.push(tail[k] - pos);
            k += 1;
        }
        let len = self.len;
        self.len = pos;
        let r = PieceRecord { ty: self.ty, beg: self.beg + pos, len: len - pos, line_breaks: right };
        assert forall|i: int, j: int| 0 <= i < j < r.line_breaks@.len()
            implies #[trigger] r.line_breaks@[i] < #[trigger] r.line_breaks@[j] by {
            assert(old(self).line_breaks@[i + d] < old(self).line_breaks@[j + d]);
        }
        assert forall|i: int| 0 <= i < r.line_breaks@.len()
            implies #[trigger] r.line_breaks@[i] < r.len by {
            assert(old(self).line_breaks@[i + d] < len);
        }
        Some(r)
    }

    /// Splits like `split`, then hands the left part to `f` and keeps what `f`
    /// returns in its place.
    pub fn split_and_then(&mut self, pos: usize, f: impl Fn(PieceRecord) -> PieceRecord) -> (r: Option<PieceRecord>)
        requires
            old(self).well_formed(),
            pos <= old(self).len,
            forall|p: PieceRecord| p.well_formed() ==> #[trigger] f.requires((p,)),
        ensures
            pos == old(self).len <==> r is None,
            exists|l: PieceRecord|
                l.well_formed() && left_part_of(l, *old(self), pos as int) && #[trigger] f.ensures((l,), *final(self)),
            r matches Some(right) ==> right.well_formed() && right_part_of(right, *old(self), pos as int),
    {
        let right = self.split(pos);
        let mut left = PieceRecord { ty: PieceType::Orig, beg: 0, len: 0, line_breaks: Vec::new() };
        std::mem::swap(self, &mut left);
        let ghost l = left;
        *self = f(left);
        assert(f.ensures((l,), *self));
        right
    }
}

/// `l` is what `split(k)` leaves of `p`: the same start, `k` codepoints, and
/// the cached breaks before `k`.
pub open spec fn left_part_of(l: PieceRecord, p: PieceRecord, k: int) -> bool {
    &&& l.ty == p.ty
    &&& l.beg == p.beg
    &&& l.len == k
    &&& l.line_breaks@ == p.line_breaks@.subrange(0, p.breaks_before(k))
}

/// `r` is what `split(k)` returns of `p`: the run from `k` on, its cached
/// breaks those of `p` from `k` on, moved back by `k`.
pub open spec fn right_part_of(r: PieceRecord, p: PieceRecord, k: int) -> bool {
    &&& r.ty == p.ty
    &&& r.beg == p.beg + k
    &&& r.len == p.len - k
    &&& r.line_breaks@.len() == p.line_breaks@.len() - p.breaks_before(k)
    &&& forall|i: int| 0 <= i < r.line_breaks@.len() ==>
        #[trigger] r.line_breaks@[i] + k == p.line_breaks@[i + p.breaks_before(k)]
}

/// The right part of a right part is a right part of the whole.
proof fn lemma_right_of_right(p: PieceRecord, r1: PieceRecord, c1: int, r2: PieceRecord, c2: int)
    requires
        p.well_formed(),
        r1.well_formed(),
        0 <= c1,
        0 <= c2 <= r1.len,
        right_part_of(r1, p, c1),
        right_part_of(r2, r1, c2),
    ensures
        right_part_of(r2, p, c1 + c2),
{
    let v = p.line_breaks@;
    let w = r1.line_breaks@;
    lemma_count_below_split(v, c1);
    lemma_count_below_split(w, c2);
    let d1 = count_below(v, c1);
    let d2 = count_below(w, c2);
    assert forall|i: int| 0 <= i < d1 + d2 implies v[i] < c1 + c2 by {
        if i >= d1 {
            assert(w[i - d1] + c1 == v[i - d1 + d1]);
        }
    }
    assert forall|i: int| d1 + d2 <= i < v.len() implies v[i] >= c1 + c2 by {
        assert(w[i - d1] + c1 == v[i - d1 + d1]);
    }
    lemma_count_below(v, c1 + c2, d1 + d2);
    assert forall|i: int| 0 <= i < r2.line_breaks@.len() implies
        #[trigger] r2.line_breaks@[i] + (c1 + c2) == v[i + (d1 + d2)] by {
        assert(r2.line_breaks@[i] + c2 == w[i + d2]);
        assert(w[i + d2] + c1 == v[i + d2 + d1]);
    }
}

/// Binary search over an ascending break list: the first index whose entry is
/// at least `pos`.
fn partition_point(v: &Vec<usize>, pos: usize) -> (d: usize)
    requires
        strictly_ascending(v@),
    ensures
        d <= v@.len(),
        forall|i: int| 0 <= i < d ==> v@[i] < pos,
        forall|i: int| d <= i < v@.len() ==> v@[i] >= pos,
{
    let mut lo: usize = 0;
    let mut hi: usize = v.len();
    while lo < hi
        invariant
            lo <= hi <= v@.len(),
            strictly_ascending(v@),
            forall|i: int| 0 <= i < lo ==> v@[i] < pos,
            forall|i: int| hi <= i < v@.len() ==> v@[i] >= pos,
        decreases hi - lo,
    {
        let mid = lo + (hi - lo) / 2;
        if v[mid] < pos {
            lo = mid + 1;
        } else {
            hi = mid;
        }
    }
    lo
}

/// The buffer a piece of type `ty` reads from.
pub open spec fn buffer_of(ty: PieceType, orig: Seq<char>, add: Seq<char>) -> Seq<char> {
    match ty {
        PieceType::Orig => orig,
        PieceType::Add => add,
    }
}

/// The text one piece denotes.
pub open spec fn piece_text(p: PieceRecord, orig: Seq<char>, add: Seq<char>) -> Seq<char> {
    buffer_of(p.ty, orig, add).subrange(p.beg as int, p.beg + p.len)
}

/// The text a sequence of pieces denotes: their texts, in order.
pub open spec fn text_of(ps: Seq<PieceRecord>, orig: Seq<char>, add: Seq<char>) -> Seq<char>
    decreases ps.len(),
{
    if ps.len() == 0 {
        Seq::empty()
    } else {
        text_of(ps.drop_last(), orig, add) + piece_text(ps.last(), orig, add)
    }
}

/// Sum of the `len` fields of a sequence of pieces.
pub open spec fn piece_len_sum(ps: Seq<PieceRecord>) -> int
    decreases ps.len(),
{
    if ps.len() == 0 {
        0
    } else {
        piece_len_sum(ps.drop_last()) + ps.last().len
    }
}

/// Sum of the sizes of the pieces' break caches.
pub open spec fn break_count_sum(ps: Seq<PieceRecord>) -> int
    decreases ps.len(),
{
    if ps.len() == 0 {
        0
    } else {
        break_count_sum(ps.drop_last()) + ps.last().line_breaks@.len()
    }
}

/// A piece lies inside its buffer and its break cache is exact.
pub open spec fn piece_ok(p: PieceRecord, orig: Seq<char>, add: Seq<char>) -> bool {
    &&& p.beg + p.len <= buffer_of(p.ty, orig, add).len()
    &&& p.well_formed()
    &&& as_ints(p.line_breaks@) == breaks_of(piece_text(p, orig, add))
}

/// The zero-length piece that always leads the sequence.
pub open spec fn is_sentinel(p: PieceRecord) -> bool {
    p.ty == PieceType::Orig && p.beg == 0 && p.len == 0 && p.line_breaks@.len() == 0
}

pub open spec fn all_pieces_ok(ps: Seq<PieceRecord>, orig: Seq<char>, add: Seq<char>) -> bool {
    forall|i: int| 0 <= i < ps.len() ==> piece_ok(#[trigger] ps[i], orig, add)
}

/// The text of a concatenation of piece sequences is the concatenation of
/// their texts.
pub proof fn lemma_text_concat(a: Seq<PieceRecord>, b: Seq<PieceRecord>, orig: Seq<char>, add: Seq<char>)
    ensures
        text_of(a + b, orig, add) == text_of(a, orig, add) + text_of(b, orig, add),
    decreases b.len(),
{
    if b.len() == 0 {
        assert(a + b == a);
        assert(text_of(a, orig, add) + Seq::<char>::empty() == text_of(a, orig, add));
    } else {
        lemma_text_concat(a, b.drop_last(), orig, add);
        assert((a + b).drop_last() == a + b.drop_last());
        assert((a + b).last() == b.last());
    }
}

/// Extending a prefix by one piece appends that piece's text.
proof fn lemma_text_step(ps: Seq<PieceRecord>, j: int, orig: Seq<char>, add: Seq<char>)
    requires
        0 <= j < ps.len(),
    ensures
        text_of(ps.subrange(0, j + 1), orig, add) == text_of(ps.subrange(0, j), orig, add)
            + piece_text(ps[j], orig, add),
        piece_len_sum(ps.subrange(0, j + 1)) == piece_len_sum(ps.subrange(0, j)) + ps[j].len,
        break_count_sum(ps.subrange(0, j + 1)) == break_count_sum(ps.subrange(0, j)) + ps[j].line_breaks@.len(),
{
    assert(ps.subrange(0, j + 1).drop_last() == ps.subrange(0, j));
}

/// Appending to the edit buffer leaves the text of in-bounds pieces as it was.
proof fn lemma_text_grow_add(ps: Seq<PieceRecord>, orig: Seq<char>, add: Seq<char>, extra: Seq<char>)
    requires
        all_pieces_ok(ps, orig, add),
    ensures
        text_of(ps, orig, add + extra) == text_of(ps, orig, add),
        all_pieces_ok(ps, orig, add + extra),
    decreases ps.len(),
{
    if ps.len() > 0 {
        let q = ps.drop_last();
        assert(all_pieces_ok(q, orig, add)) by {
            assert forall|i: int| 0 <= i < q.len() implies piece_ok(#[trigger] q[i], orig, add) by {
                assert(q[i] == ps[i]);
            }
        }
        lemma_text_grow_add(q, orig, add, extra);
        assert forall|i: int| 0 <= i < ps.len() implies piece_ok(#[trigger] ps[i], orig, add + extra) by {
            let p = ps[i];
            assert(piece_ok(p, orig, add));
            assert(piece_text(p, orig, add + extra) == piece_text(p, orig, add));
        }
        let p = ps.last();
        assert(piece_ok(p, orig, add));
        assert(piece_text(p, orig, add + extra) == piece_text(p, orig, add));
    }
}

/// The text of well-formed pieces is as long as the sum of their lengths.
proof fn lemma_text_len(ps: Seq<PieceRecord>, orig: Seq<char>, add: Seq<char>)
    requires
        all_pieces_ok(ps, orig, add),
    ensures
        text_of(ps, orig, add).len() == piece_len_sum(ps),
    decreases ps.len(),
{
    if ps.len() > 0 {
        let q = ps.drop_last();
        assert(all_pieces_ok(q, orig, add)) by {
            assert forall|i: int| 0 <= i < q.len() implies piece_ok(#[trigger] q[i], orig, add) by {
                assert(q[i] == ps[i]);
            }
        }
        lemma_text_len(q, orig, add);
        assert(piece_ok(ps[ps.len() - 1], orig, add));
    }
}

/// A run of breaks never outnumbers the codepoints it was taken from.
proof fn lemma_breaks_len(s: Seq<char>)
    ensures
        breaks_of(s).len() <= s.len(),
    decreases s.len(),
{
    if s.len() > 0 {
        lemma_breaks_len(s.drop_last());
    }
}

/// A record whose cache lists exactly the breaks of a text as long as the
/// record is well formed.
proof fn lemma_record_from_breaks(p: PieceRecord, t: Seq<char>)
    requires
        as_ints(p.line_breaks@) == breaks_of(t),
        t.len() == p.len,
        p.beg + p.len <= usize::MAX,
    ensures
        p.well_formed(),
{
    lemma_breaks_valid(t);
    let v = p.line_breaks@;
    assert forall|i: int| 0 <= i < v.len() implies #[trigger] v[i] < p.len by {
        assert(as_ints(v)[i] == v[i] as int);
    }
    assert forall|i: int, j: int| 0 <= i < j < v.len() implies #[trigger] v[i] < #[trigger] v[j] by {
        assert(as_ints(v)[i] == v[i] as int);
        assert(as_ints(v)[j] == v[j] as int);
    }
}

/// The text of a single piece.
proof fn lemma_text_single(p: PieceRecord, orig: Seq<char>, add: Seq<char>)
    ensures
        text_of(seq![p], orig, add) == piece_text(p, orig, add),
{
    assert(seq![p].drop_last() == Seq::<PieceRecord>::empty());
    assert(seq![p].last() == p);
    assert(text_of(Seq::<PieceRecord>::empty(), orig, add) == Seq::<char>::empty());
    assert(Seq::<char>::empty() + piece_text(p, orig, add) == piece_text(p, orig, add));
}

/// The text of `a + mid + b` is that of `a`, then `mid`, then `b`.
proof fn lemma_text_three(a: Seq<PieceRecord>, mid: Seq<PieceRecord>, b: Seq<PieceRecord>, orig: Seq<char>, add: Seq<char>)
    ensures
        text_of(a + mid + b, orig, add) == text_of(a, orig, add) + text_of(mid, orig, add) + text_of(b, orig, add),
{
    lemma_text_concat(a + mid, b, orig, add);
    lemma_text_concat(a, mid, orig, add);
}

/// Splitting a sound piece at a local index gives two sound pieces whose
/// texts make up the original one.
proof fn lemma_split_sound(p: PieceRecord, pos: int, l: PieceRecord, r: PieceRecord, orig: Seq<char>, add: Seq<char>)
    requires
        piece_ok(p, orig, add),
        0 < pos < p.len,
        left_part_of(l, p, pos),
        right_part_of(r, p, pos),
        l.well_formed(),
        r.well_formed(),
    ensures
        piece_ok(l, orig, add),
        piece_ok(r, orig, add),
        piece_text(l, orig, add) + piece_text(r, orig, add) == piece_text(p, orig, add),
{
    let t = piece_text(p, orig, add);
    let lt = piece_text(l, orig, add);
    let rt = piece_text(r, orig, add);
    assert(lt == t.subrange(0, pos));
    assert(rt == t.subrange(pos, t.len() as int));
    assert(lt + rt == t);
    lemma_breaks_concat(lt, rt);
    lemma_breaks_valid(lt);
    lemma_breaks_valid(rt);
    let v = p.line_breaks@;
    let d = breaks_of(lt).len() as int;
    let sr = shifted(breaks_of(rt), pos);
    assert(breaks_of(t) == breaks_of(lt) + sr);
    assert(as_ints(v).len() == v.len());
    assert forall|i: int| 0 <= i < d implies v[i] < pos by {
        assert(as_ints(v)[i] == v[i] as int);
        assert(breaks_of(t)[i] == breaks_of(lt)[i]);
        assert(0 <= breaks_of(lt)[i] < lt.len());
    }
    assert forall|i: int| d <= i < v.len() implies v[i] >= pos by {
        assert(as_ints(v)[i] == v[i] as int);
        assert(breaks_of(t)[i] == sr[i - d]);
        assert(sr[i - d] == breaks_of(rt)[i - d] + pos);
        assert(0 <= breaks_of(rt)[i - d]);
    }
    lemma_count_below(v, pos, d);
    assert(as_ints(l.line_breaks@) == breaks_of(lt)) by {
        assert forall|i: int| 0 <= i < d implies as_ints(l.line_breaks@)[i] == breaks_of(lt)[i] by {
            assert(as_ints(v)[i] == breaks_of(t)[i]);
        }
    }
    assert(as_ints(r.line_breaks@) == breaks_of(rt)) by {
        assert forall|i: int| 0 <= i < r.line_breaks@.len() implies as_ints(r.line_breaks@)[i] == breaks_of(rt)[i] by {
            assert(as_ints(v)[i + d] == breaks_of(t)[i + d]);
            assert(breaks_of(t)[i + d] == sr[i]);
        }
    }
}

/// The text of a suffix of pieces starts with the text of its first piece.
proof fn lemma_text_suffix_step(ps: Seq<PieceRecord>, i: int, orig: Seq<char>, add: Seq<char>)
    requires
        0 <= i < ps.len(),
    ensures
        text_of(ps.subrange(i, ps.len() as int), orig, add) == piece_text(ps[i], orig, add)
            + text_of(ps.subrange(i + 1, ps.len() as int), orig, add),
{
    assert(ps.subrange(i, ps.len() as int) == seq![ps[i]] + ps.subrange(i + 1, ps.len() as int));
    lemma_text_concat(seq![ps[i]], ps.subrange(i + 1, ps.len() as int), orig, add);
    lemma_text_single(ps[i], orig, add);
}

/// The text of a sequence is that of its prefix up to `i` and then the rest.
proof fn lemma_text_cut(ps: Seq<PieceRecord>, i: int, orig: Seq<char>, add: Seq<char>)
    requires
        0 <= i <= ps.len(),
    ensures
        text_of(ps, orig, add) == text_of(ps.subrange(0, i), orig, add)
            + text_of(ps.subrange(i, ps.len() as int), orig, add),
{
    assert(ps == ps.subrange(0, i) + ps.subrange(i, ps.len() as int));
    lemma_text_concat(ps.subrange(0, i), ps.subrange(i, ps.len() as int), orig, add);
}

/// Where line `i` of `s` starts: 0 for the first line, else just past the
/// terminator that ends line `i - 1`.
pub open spec fn line_start(s: Seq<char>, i: int) -> int {
    if i == 0 {
        0
    } else {
        breaks_of(s)[i - 1] + 1
    }
}

/// Where line `i` of `s` ends: at its terminator, or at the end of `s` for
/// the last line.
pub open spec fn line_end(s: Seq<char>, i: int) -> int {
    if i < breaks_of(s).len() {
        breaks_of(s)[i]
    } else {
        s.len() as int
    }
}

/// Line `i` of `s`, without its terminator.
pub open spec fn line_text(s: Seq<char>, i: int) -> Seq<char> {
    s.subrange(line_start(s, i), line_end(s, i))
}

/// The smaller of `a` and `b`.
pub open spec fn min_int(a: int, b: int) -> int {
    if a < b { a } else { b }
}

/// The larger of `a` and `b`.
pub open spec fn max_int(a: int, b: int) -> int {
    if a < b { b } else { a }
}

/// Reading `[start, end)` up to `pend` is reading it up to `off` and then the
/// part of `[off, pend)` inside the range.
proof fn lemma_range_extend(v: Seq<char>, start: int, end: int, off: int, pend: int)
    requires
        0 <= start <= end <= v.len(),
        0 <= off <= pend <= v.len(),
    ensures
        v.subrange(min_int(start, off), min_int(end, off)) + (if max_int(start, off) < min_int(end, pend) {
            v.subrange(max_int(start, off), min_int(end, pend))
        } else {
            Seq::<char>::empty()
        }) == v.subrange(min_int(start, pend), min_int(end, pend)),
{
    let lo = max_int(start, off);
    let hi = min_int(end, pend);
    if lo < hi {
        if start <= off {
            assert(v.subrange(start, off) + v.subrange(off, hi) == v.subrange(start, hi));
        } else {
            assert(Seq::<char>::empty() + v.subrange(start, hi) == v.subrange(start, hi));
        }
    } else {
        let a = v.subrange(min_int(start, off), min_int(end, off));
        assert(a + Seq::<char>::empty() == a);
    }
}

/// Locate: from piece `j` on, the first piece whose end is at or past
/// `offset` (counted from the start of piece `j`), and the offset local to it.
pub open spec fn locate_in(ps: Seq<PieceRecord>, offset: int, j: int) -> (int, int)
    decreases ps.len() - j,
{
    if j < 0 || j >= ps.len() || offset <= ps[j].len {
        (j, offset)
    } else {
        locate_in(ps, offset - ps[j].len, j + 1)
    }
}

/// `n` is the piece over text `txt` appended to the edit buffer at `beg`.
pub open spec fn added_piece(n: PieceRecord, beg: int, txt: Seq<char>) -> bool {
    &&& n.ty == PieceType::Add
    &&& n.beg == beg
    &&& n.len == txt.len()
    &&& as_ints(n.line_breaks@) == breaks_of(txt)
}

/// `qs` is `ps` with a boundary made at document offset `offset`: unchanged
/// if Locate ends at its piece's end, else that piece split in two.
spec fn split_shape(ps: Seq<PieceRecord>, qs: Seq<PieceRecord>, offset: int) -> bool {
    let (j, k) = locate_in(ps, offset, 0);
    if k == ps[j].len {
        qs == ps
    } else {
        &&& 0 < k < ps[j].len
        &&& qs.len() == ps.len() + 1
        &&& qs.subrange(0, j) == ps.subrange(0, j)
        &&& left_part_of(qs[j], ps[j], k)
        &&& right_part_of(qs[j + 1], ps[j], k)
        &&& qs.subrange(j + 2, qs.len() as int) == ps.subrange(j + 1, ps.len() as int)
    }
}

/// The pieces after inserting `txt` at document offset `offset`, the text
/// having been appended to the edit buffer at `beg`: the piece Locate picks
/// is kept whole if the offset is at its end, else split into its left and
/// right parts around the new piece; all other pieces stay as they were.
pub open spec fn insert_shape(ps: Seq<PieceRecord>, qs: Seq<PieceRecord>, offset: int, beg: int, txt: Seq<char>) -> bool {
    let (j, k) = locate_in(ps, offset, 0);
    &&& qs.subrange(0, j) == ps.subrange(0, j)
    &&& if k == ps[j].len {
        &&& qs.len() == ps.len() + 1
        &&& qs[j] == ps[j]
        &&& added_piece(qs[j + 1], beg, txt)
        &&& qs.subrange(j + 2, qs.len() as int) == ps.subrange(j + 1, ps.len() as int)
    } else {
        &&& qs.len() == ps.len() + 2
        &&& left_part_of(qs[j], ps[j], k)
        &&& added_piece(qs[j + 1], beg, txt)
        &&& right_part_of(qs[j + 2], ps[j], k)
        &&& qs.subrange(j + 3, qs.len() as int) == ps.subrange(j + 1, ps.len() as int)
    }
}

/// From index `h` on, `qs` holds the pieces of `ps` from `m` on, led, when
/// `c > 0`, by the right part of piece `m - 1` from local index `c`.
pub open spec fn kept_tail(ps: Seq<PieceRecord>, qs: Seq<PieceRecord>, h: int, m: int, c: int) -> bool {
    if c == 0 {
        qs.subrange(h, qs.len() as int) == ps.subrange(m, ps.len() as int)
    } else {
        &&& 1 <= m
        &&& 0 < c < ps[m - 1].len
        &&& qs.len() == h + 1 + ps.len() - m
        &&& right_part_of(qs[h], ps[m - 1], c)
        &&& qs.subrange(h + 1, qs.len() as int) == ps.subrange(m, ps.len() as int)
    }
}

/// The pieces after removing a range that starts at document offset
/// `offset`: those before the piece Locate picks stay; that piece stays
/// whole if the range starts at its end, else its left part stays; then come
/// the old pieces from some index on, possibly led by one right part of the
/// piece before them. Pieces in between are gone.
pub open spec fn delete_shape(ps: Seq<PieceRecord>, qs: Seq<PieceRecord>, offset: int) -> bool {
    let (j, k) = locate_in(ps, offset, 0);
    &&& j + 1 <= qs.len()
    &&& qs.subrange(0, j) == ps.subrange(0, j)
    &&& if k == ps[j].len {
        qs[j] == ps[j]
    } else {
        left_part_of(qs[j], ps[j], k)
    }
    &&& exists|m: int, c: int| j + 1 <= m <= ps.len() && #[trigger] kept_tail(ps, qs, j + 1, m, c)
}

/// Removing the piece at `i` from a kept tail leaves a kept tail.
proof fn lemma_tail_drop(ps: Seq<PieceRecord>, qs: Seq<PieceRecord>, i: int, m: int, c: int) -> (r: (int, int))
    requires
        0 <= i < qs.len(),
        0 <= m <= ps.len(),
        kept_tail(ps, qs, i, m, c),
    ensures
        m <= r.0 <= ps.len(),
        kept_tail(ps, qs.remove(i), i, r.0, r.1),
{
    let nq = qs.remove(i);
    if c == 0 {
        assert(qs.subrange(i, qs.len() as int).len() == ps.subrange(m, ps.len() as int).len());
        assert(qs.subrange(i, qs.len() as int)[0] == ps.subrange(m, ps.len() as int)[0]);
        assert(nq.subrange(i, nq.len() as int) == qs.subrange(i + 1, qs.len() as int));
        assert(qs.subrange(i + 1, qs.len() as int) == qs.subrange(i, qs.len() as int).drop_first());
        assert(ps.subrange(m + 1, ps.len() as int) == ps.subrange(m, ps.len() as int).drop_first());
        (m + 1, 0)
    } else {
        assert(nq.subrange(i, nq.len() as int) == qs.subrange(i + 1, qs.len() as int));
        (m, 0)
    }
}

/// Putting a right part of the piece at `i` in its place leaves a kept tail.
proof fn lemma_tail_trim(ps: Seq<PieceRecord>, qs: Seq<PieceRecord>, i: int, m: int, c: int, rr: PieceRecord, t: int) -> (r: (int, int))
    requires
        0 <= i < qs.len(),
        0 <= m <= ps.len(),
        kept_tail(ps, qs, i, m, c),
        forall|x: int| 0 <= x < ps.len() ==> (#[trigger] ps[x]).well_formed(),
        qs[i].well_formed(),
        0 < t < qs[i].len,
        right_part_of(rr, qs[i], t),
    ensures
        m <= r.0 <= ps.len(),
        kept_tail(ps, qs.update(i, rr), i, r.0, r.1),
{
    let nq = qs.update(i, rr);
    assert(nq.subrange(i + 1, nq.len() as int) == qs.subrange(i + 1, qs.len() as int));
    if c == 0 {
        assert(qs.subrange(i, qs.len() as int).len() == ps.subrange(m, ps.len() as int).len());
        assert(qs.subrange(i, qs.len() as int)[0] == ps.subrange(m, ps.len() as int)[0]);
        assert(qs[i] == ps[m]);
        assert(qs.subrange(i + 1, qs.len() as int) == qs.subrange(i, qs.len() as int).drop_first());
        assert(ps.subrange(m + 1, ps.len() as int) == ps.subrange(m, ps.len() as int).drop_first());
        assert(nq[i] == rr);
        (m + 1, t)
    } else {
        assert(ps[m - 1].well_formed());
        lemma_right_of_right(ps[m - 1], qs[i], c, rr, t);
        assert(nq[i] == rr);
        (m, c + t)
    }
}

/// Placing the new piece at the boundary a split made gives the shape of an
/// insertion.
proof fn lemma_insert_shape(
    ps0: Seq<PieceRecord>,
    ps: Seq<PieceRecord>,
    np: Seq<PieceRecord>,
    offset: int,
    k: int,
    piece: PieceRecord,
    beg: int,
    txt: Seq<char>,
)
    requires
        split_shape(ps0, ps, offset),
        k == locate_in(ps0, offset, 0).0 + 1,
        1 <= k <= ps0.len(),
        locate_in(ps0, offset, 0).1 <= ps0[k - 1].len,
        np == ps.insert(k, piece),
        added_piece(piece, beg, txt),
    ensures
        insert_shape(ps0, np, offset, beg, txt),
{
    let j = k - 1;
    let kk = locate_in(ps0, offset, 0).1;
    assert(np[k] == piece);
    if kk == ps0[j].len {
        assert(ps == ps0);
        assert(np.subrange(0, j) =~= ps0.subrange(0, j));
        assert(np[j] == ps0[j]);
        assert(np.subrange(j + 2, np.len() as int) =~= ps0.subrange(j + 1, ps0.len() as int));
    } else {
        assert(ps.len() == ps0.len() + 1);
        assert(np.subrange(0, j) =~= ps.subrange(0, j));
        assert(np[j] == ps[j]);
        assert(np[j + 2] == ps[j + 1]);
        assert(np.subrange(j + 3, np.len() as int) =~= ps.subrange(j + 2, ps.len() as int));
    }
}

/// Errors of the piece table.
#[derive(Debug, Clone, Copy, PartialEq, Eq, Structural)]
pub enum PieceTableError {
    /// An offset, a count or a line index lies past the end of the document.
    OutOfBounds,
}

/// A text document held as a sequence of pieces over two buffers.
#[derive(Debug)]
pub struct PieceTable {
    orig: String,
    add: String,
    pieces: Vec<PieceRecord>,
}

impl View for PieceTable {
    type V = Seq<char>;

    /// The document's codepoints.
    closed spec fn view(&self) -> Seq<char> {
        text_of(self.pieces@, self.orig@, self.add@)
    }
}

impl PieceTable {
    /// The invariant of the table: a leading sentinel, every piece inside its
    /// buffer with an exact break cache, and lengths that fit a `usize`.
    pub closed spec fn wf(&self) -> bool {
        &&& self.pieces@.len() >= 1
        &&& is_sentinel(self.pieces@[0])
        &&& all_pieces_ok(self.pieces@, self.orig@, self.add@)
        &&& self.orig@.len() <= usize::MAX
        &&& self.add@.len() <= usize::MAX
        &&& self@.len() < usize::MAX
    }

    /// The text the table was created from.
    pub closed spec fn original(&self) -> Seq<char> {
        self.orig@
    }

    /// Everything ever inserted, in order of insertion.
    pub closed spec fn added(&self) -> Seq<char> {
        self.add@
    }

    /// Sum of the lengths of all pieces.
    pub closed spec fn piece_lengths(&self) -> int {
        piece_len_sum(self.pieces@)
    }

    /// The pieces, the sentinel first.
    pub closed spec fn piece_list(&self) -> Seq<PieceRecord> {
        self.pieces@
    }

    fn sentinel() -> (r: PieceRecord)
        ensures
            is_sentinel(r),
            r.well_formed(),
    {
        PieceRecord { ty: PieceType::Orig, beg: 0, len: 0, line_breaks: Vec::new() }
    }

    /// An empty document.
    pub fn new() -> (r: PieceTable)
        ensures
            r.wf(),
            r@ == Seq::<char>::empty(),
            r.original() == Seq::<char>::empty(),
            r.added() == Seq::<char>::empty(),
            r.piece_list().len() == 1,
            is_sentinel(r.piece_list()[0]),
    {
        let r = PieceTable { orig: String::new(), add: String::new(), pieces: vec![Self::sentinel()] };
        proof {
            let ps = r.pieces@;
            let e = Seq::<char>::empty();
            assert(ps.drop_last() == Seq::<PieceRecord>::empty());
            assert(text_of(ps.drop_last(), r.orig@, r.add@) == e);
            assert(piece_text(ps[0], r.orig@, r.add@) == e);
            assert(breaks_of(e) == Seq::<int>::empty());
            assert(as_ints(ps[0].line_breaks@) == Seq::<int>::empty());
            assert(piece_ok(ps[0], r.orig@, r.add@));
            assert(text_of(ps, r.orig@, r.add@) == e + e);
            assert(e + e == e);
        }
        r
    }

    /// A document holding `txt`: the sentinel and one piece over all of it.
    pub fn from_string(txt: String) -> (r: PieceTable)
        requires
            txt@.len() < usize::MAX,
        ensures
            r.wf(),
            r@ == txt@,
            r.original() == txt@,
            r.added() == Seq::<char>::empty(),
            r.piece_list().len() == 2,
            is_sentinel(r.piece_list()[0]),
            r.piece_list()[1].ty == PieceType::Orig,
            r.piece_list()[1].beg == 0,
            r.piece_list()[1].len == txt@.len(),
            as_ints(r.piece_list()[1].line_breaks@) == breaks_of(txt@),
    {
        let len = txt.as_str().unicode_len();
        let line_breaks = get_line_breaks(txt.as_str());
        let whole = PieceRecord { ty: PieceType::Orig, beg: 0, len, line_breaks };
        proof {
            lemma_breaks_valid(txt@);
            lemma_record_from_breaks(whole, txt@);
        }
        let r = PieceTable { orig: txt, add: String::new(), pieces: vec![Self::sentinel(), whole] };
        proof {
            let ps = r.pieces@;
            let e = Seq::<char>::empty();
            assert(piece_text(ps[1], r.orig@, r.add@) == r.orig@);
            assert(piece_text(ps[0], r.orig@, r.add@) == e);
            assert(breaks_of(e) == Seq::<int>::empty());
            assert(as_ints(ps[0].line_breaks@) == Seq::<int>::empty());
            assert(piece_ok(ps[0], r.orig@, r.add@));
            assert(piece_ok(ps[1], r.orig@, r.add@));
            assert(all_pieces_ok(ps, r.orig@, r.add@));
            assert(ps.drop_last().drop_last() == Seq::<PieceRecord>::empty());
            assert(text_of(ps.drop_last().drop_last(), r.orig@, r.add@) == e);
            assert(ps.drop_last().last() == ps[0]);
            assert(text_of(ps.drop_last(), r.orig@, r.add@) == e + e);
            assert(text_of(ps, r.orig@, r.add@) == (e + e) + r.orig@);
            assert((e + e) + r.orig@ == r.orig@);
        }
        r
    }

    /// A document holding a copy of `txt`.
    pub fn from_str(txt: &str) -> (r: PieceTable)
        requires
            txt@.len() < usize::MAX,
        ensures
            r.wf(),
            r@ == txt@,
            r.original() == txt@,
            r.added() == Seq::<char>::empty(),
            r.piece_list().len() == 2,
            is_sentinel(r.piece_list()[0]),
            r.piece_list()[1].ty == PieceType::Orig,
            r.piece_list()[1].beg == 0,
            r.piece_list()[1].len == txt@.len(),
            as_ints(r.piece_list()[1].line_breaks@) == breaks_of(txt@),
    {
        Self::from_string(String::from_str(txt))
    }

    /// Number of codepoints in the document, summed over the pieces.
    pub fn length(&self) -> (r: usize)
        requires
            self.wf(),
        ensures
            r == self@.len(),
            r == piece_len_sum(self.piece_list()),
    {
        let ghost ps = self.pieces@;
        let mut total: usize = 0;
        let mut j: usize = 0;
        while j < self.pieces.len()
            invariant
                self.wf(),
                ps == self.pieces@,
                j <= ps.len(),
                total == text_of(ps.subrange(0, j as int), self.orig@, self.add@).len(),
                total == piece_len_sum(ps.subrange(0, j as int)),
            decreases ps.len() - j,
        {
            proof {
                lemma_text_step(ps, j as int, self.orig@, self.add@);
                lemma_text_concat(ps.subrange(0, j + 1), ps.subrange(j + 1, ps.len() as int), self.orig@, self.add@);
                assert(ps.subrange(0, j + 1) + ps.subrange(j + 1, ps.len() as int) == ps);
                assert(piece_ok(ps[j as int], self.orig@, self.add@));
            }
            total = total + self.pieces[j].len;
            j += 1;
        }
        assert(ps.subrange(0, j as int) == ps);
        total
    }

    /// Finds the piece that holds document offset `offset`: the first piece
    /// whose end is at or past it, and the offset local to that piece.
    fn locate(&self, offset: usize) -> (r: (usize, usize))
        requires
            self.wf(),
            offset <= self@.len(),
        ensures
            r.0 < self.pieces@.len(),
            r.1 <= self.pieces@[r.0 as int].len,
            r.0 > 0 ==> r.1 > 0,
            (r.0 as int, r.1 as int) == locate_in(self.pieces@, offset as int, 0),
            text_of(self.pieces@.subrange(0, r.0 as int), self.orig@, self.add@).len() + r.1 == offset,
    {
        let ghost ps = self.pieces@;
        let ghost orig = self.orig@;
        let ghost add = self.add@;
        let mut rest: usize = offset;
        let mut j: usize = 0;
        while j < self.pieces.len()
            invariant
                self.wf(),
                ps == self.pieces@,
                orig == self.orig@,
                add == self.add@,
                offset <= self@.len(),
                j <= ps.len(),
                text_of(ps.subrange(0, j as int), orig, add).len() + rest == offset,
                j > 0 ==> rest > 0,
                locate_in(ps, rest as int, j as int) == locate_in(ps, offset as int, 0),
            decreases ps.len() - j,
        {
            proof {
                lemma_text_step(ps, j as int, orig, add);
                assert(piece_ok(ps[j as int], orig, add));
            }
            if rest <= self.pieces[j].len {
                return (j, rest);
            }
            rest = rest - self.pieces[j].len;
            j += 1;
        }
        // the offset lies inside the document, so some piece ends at or past it
        assert(ps.subrange(0, j as int) == ps);
        assert(false);
        (0, 0)
    }

    /// Makes a piece boundary fall at document offset `offset`, splitting the
    /// piece that straddles it, and returns the index of the first piece at or
    /// after it. The text does not change.
    fn split_at(&mut self, offset: usize) -> (k: usize)
        requires
            old(self).wf(),
            offset <= old(self)@.len(),
        ensures
            final(self).wf(),
            final(self)@ == old(self)@,
            final(self).orig == old(self).orig,
            final(self).add == old(self).add,
            1 <= k <= final(self).pieces@.len(),
            text_of(final(self).pieces@.subrange(0, k as int), final(self).orig@, final(self).add@).len() == offset,
            k == locate_in(old(self).pieces@, offset as int, 0).0 + 1,
            k <= old(self).pieces@.len(),
            locate_in(old(self).pieces@, offset as int, 0).1 <= old(self).pieces@[k - 1].len,
            split_shape(old(self).pieces@, final(self).pieces@, offset as int),
    {
        let ghost ps = self.pieces@;
        let ghost orig = self.orig@;
        let ghost add = self.add@;
        let count = self.pieces.len();
        let (j, local) = self.locate(offset);
        proof {
            lemma_text_step(ps, j as int, orig, add);
            assert(piece_ok(ps[j as int], orig, add));
        }
        if local == self.pieces[j].len {
            return j + 1;
        }
        let mut left = self.pieces.remove(j);
        let right = left.split(local);
        match right {
            Some(r) => {
                let ghost l = left;
                self.pieces.insert(j, left);
                self.pieces.insert(j + 1, r);
                proof {
                    let p = ps[j as int];
                    lemma_split_sound(p, local as int, l, r, orig, add);
                    let a = ps.subrange(0, j as int);
                    let b = ps.subrange(j + 1, ps.len() as int);
                    let mid = seq![l, r];
                    let np = self.pieces@;
                    assert(np == a + mid + b);
                    assert(ps == a + seq![p] + b);
                    lemma_text_three(a, mid, b, orig, add);
                    lemma_text_three(a, seq![p], b, orig, add);
                    lemma_text_single(p, orig, add);
                    assert(mid.drop_last() == seq![l]);
                    lemma_text_single(l, orig, add);
                    assert(text_of(mid, orig, add) == piece_text(l, orig, add) + piece_text(r, orig, add));
                    assert(all_pieces_ok(np, orig, add)) by {
                        assert forall|i: int| 0 <= i < np.len() implies piece_ok(#[trigger] np[i], orig, add) by {
                            if i < j {
                                assert(np[i] == ps[i]);
                            } else if i > j + 1 {
                                assert(np[i] == ps[i - 1]);
                            }
                        }
                    }
                    assert(j > 0);
                    assert(np[0] == ps[0]);
                    assert(np.subrange(0, j + 1) == a + seq![l]);
                    lemma_text_concat(a, seq![l], orig, add);
                    assert(np.subrange(0, j as int) == a);
                    assert(np.subrange(j + 2, np.len() as int) == b);
                    assert(np[j as int] == l && np[j + 1] == r);
                }
            },
            None => {
                // a split strictly inside a piece always has a right part
                assert(false);
            },
        }
        j + 1
    }

    /// Inserts `txt` so that it starts at codepoint `char_offset`. The text is
    /// appended to the edit buffer and a piece over it is placed at the offset,
    /// splitting the piece there if the offset falls inside it.
    pub fn insert(&mut self, char_offset: usize, txt: &str) -> (r: Result<(), PieceTableError>)
        requires
            old(self).wf(),
            old(self)@.len() + txt@.len() < usize::MAX,
        ensures
            final(self).wf(),
            r is Ok <==> char_offset <= old(self)@.len(),
            r is Ok ==> final(self)@ == old(self)@.subrange(0, char_offset as int) + txt@
                + old(self)@.subrange(char_offset as int, old(self)@.len() as int),
            r is Ok ==> final(self).added() == old(self).added() + txt@,
            r is Ok ==> insert_shape(old(self).piece_list(), final(self).piece_list(), char_offset as int,
                old(self).added().len() as int, txt@),
            r is Err ==> r == Err::<(), PieceTableError>(PieceTableError::OutOfBounds) && *final(self) == *old(self),
            final(self).original() == old(self).original(),
    {
        if char_offset > self.length() {
            return Err(PieceTableError::OutOfBounds);
        }
        let ghost old_text = self@;
        let n = txt.unicode_len();
        let line_breaks = get_line_breaks(txt);
        let ghost ps0 = self.pieces@;
        let k = self.split_at(char_offset);
        let ghost ps = self.pieces@;
        let ghost orig = self.orig@;
        let ghost add = self.add@;
        self.add.append(txt);
        let total = self.add.as_str().unicode_len();
        let piece = PieceRecord { ty: PieceType::Add, beg: total - n, len: n, line_breaks };
        proof {
            lemma_text_grow_add(ps, orig, add, txt@);
            assert(piece_text(piece, orig, add + txt@) == txt@);
            lemma_record_from_breaks(piece, txt@);
        }
        self.pieces.insert(k, piece);
        proof {
            let add2 = add + txt@;
            let a = ps.subrange(0, k as int);
            let b = ps.subrange(k as int, ps.len() as int);
            let np = self.pieces@;
            assert(np == a + seq![piece] + b);
            assert(ps == a + b);
            lemma_text_three(a, seq![piece], b, orig, add2);
            lemma_text_concat(a, b, orig, add2);
            lemma_text_single(piece, orig, add2);
            lemma_text_grow_add(a, orig, add, txt@);
            let ta = text_of(a, orig, add2);
            let tb = text_of(b, orig, add2);
            assert(ta + tb == old_text);
            assert(ta == old_text.subrange(0, char_offset as int));
            assert(tb == old_text.subrange(char_offset as int, old_text.len() as int));
            assert(all_pieces_ok(np, orig, add2)) by {
                assert forall|i: int| 0 <= i < np.len() implies piece_ok(#[trigger] np[i], orig, add2) by {
                    if i < k {
                        assert(np[i] == ps[i]);
                    } else if i > k {
                        assert(np[i] == ps[i - 1]);
                    }
                }
            }
            assert(np[0] == ps[0]);
            lemma_insert_shape(ps0, ps, np, char_offset as int, k as int, piece, add.len() as int, txt@);
        }
        Ok(())
    }

    /// Dropping the piece at `i`, whose text is all inside the range being
    /// removed, keeps the text before `i` and leaves the rest after it.
    proof fn lemma_delete_drop_text(&self, ps: Seq<PieceRecord>, i: int, old_text: Seq<char>, a: int, total: int)
        requires
            0 <= i < ps.len(),
            0 <= a <= total == old_text.len(),
            all_pieces_ok(ps, self.orig@, self.add@),
            text_of(ps.subrange(i, ps.len() as int), self.orig@, self.add@) == old_text.subrange(a, total),
            self.pieces@ == ps.remove(i),
        ensures
            all_pieces_ok(self.pieces@, self.orig@, self.add@),
            self.pieces@.subrange(0, i) == ps.subrange(0, i),
            text_of(self.pieces@.subrange(i, self.pieces@.len() as int), self.orig@, self.add@)
                == old_text.subrange(a + ps[i].len, total),
            self.pieces@.len() + 1 == ps.len(),
    {
        let orig = self.orig@;
        let add = self.add@;
        let np = self.pieces@;
        lemma_text_suffix_step(ps, i, orig, add);
        assert(piece_ok(ps[i], orig, add));
        let ws = old_text.subrange(a, total);
        let pl = ps[i].len as int;
        let tail = text_of(ps.subrange(i + 1, ps.len() as int), orig, add);
        assert(tail == ws.subrange(pl, ws.len() as int));
        assert(np.subrange(0, i) == ps.subrange(0, i));
        assert(np.subrange(i, np.len() as int) == ps.subrange(i + 1, ps.len() as int));
        assert forall|j: int| 0 <= j < np.len() implies piece_ok(#[trigger] np[j], orig, add) by {
            if j < i {
                assert(np[j] == ps[j]);
            } else {
                assert(np[j] == ps[j + 1]);
            }
        }
        assert(ws.subrange(pl, ws.len() as int) == old_text.subrange(a + pl, total));
    }

    /// Putting the right part of the piece at `i` from local index `t` in
    /// its place leaves the text after `t` of that piece and the rest.
    proof fn lemma_delete_trim_text(
        &self,
        ps: Seq<PieceRecord>,
        i: int,
        whole: PieceRecord,
        r: PieceRecord,
        t: int,
        old_text: Seq<char>,
        a: int,
        total: int,
    )
        requires
            0 <= i < ps.len(),
            whole == ps[i],
            0 < t < whole.len,
            0 <= a <= total == old_text.len(),
            all_pieces_ok(ps, self.orig@, self.add@),
            right_part_of(r, whole, t),
            piece_ok(r, self.orig@, self.add@),
            text_of(ps.subrange(i, ps.len() as int), self.orig@, self.add@) == old_text.subrange(a, total),
            self.pieces@ == ps.update(i, r),
        ensures
            all_pieces_ok(self.pieces@, self.orig@, self.add@),
            text_of(self.pieces@.subrange(i, self.pieces@.len() as int), self.orig@, self.add@)
                == old_text.subrange(a + t, total),
    {
        let orig = self.orig@;
        let add = self.add@;
        let np = self.pieces@;
        assert(piece_ok(whole, orig, add));
        let pt = piece_text(whole, orig, add);
        let rt = piece_text(r, orig, add);
        assert(rt == pt.subrange(t, pt.len() as int));
        assert(piece_ok(r, orig, add));
        assert forall|j: int| 0 <= j < np.len() implies piece_ok(#[trigger] np[j], orig, add) by {
            if j != i {
                assert(np[j] == ps[j]);
            }
        }
        lemma_text_suffix_step(ps, i, orig, add);
        lemma_text_suffix_step(np, i, orig, add);
        assert(np.subrange(i + 1, np.len() as int) == ps.subrange(i + 1, ps.len() as int));
        let ws = old_text.subrange(a, total);
        let tail = text_of(ps.subrange(i + 1, ps.len() as int), orig, add);
        assert(ws == pt + tail);
        assert(rt + tail == ws.subrange(t, ws.len() as int));
        assert(ws.subrange(t, ws.len() as int) == old_text.subrange(a + t, total));
    }

    /// Removes the `len` codepoints that start at `char_offset`. Whole pieces
    /// inside the range leave the sequence, the piece the range ends in keeps
    /// only its part after the range, and neither buffer changes.
    #[verifier::rlimit(60)]
    pub fn delete(&mut self, char_offset: usize, len: usize) -> (r: Result<(), PieceTableError>)
        requires
            old(self).wf(),
        ensures
            final(self).wf(),
            r is Ok <==> char_offset + len <= old(self)@.len(),
            r is Ok ==> final(self)@ == old(self)@.subrange(0, char_offset as int)
                + old(self)@.subrange(char_offset + len, old(self)@.len() as int),
            len == 0 && char_offset <= old(self)@.len() ==> final(self)@ == old(self)@,
            len == 0 ==> *final(self) == *old(self),
            r is Ok && len > 0 ==> delete_shape(old(self).piece_list(), final(self).piece_list(), char_offset as int),
            r is Err ==> r == Err::<(), PieceTableError>(PieceTableError::OutOfBounds) && *final(self) == *old(self),
            final(self).original() == old(self).original(),
            final(self).added() == old(self).added(),
    {
        let total = self.length();
        if char_offset > total || len > total - char_offset {
            return Err(PieceTableError::OutOfBounds);
        }
        let ghost old_text = self@;
        if len == 0 {
            assert(old_text.subrange(0, char_offset as int) + old_text.subrange(char_offset as int, old_text.len() as int)
                == old_text);
            return Ok(());
        }
        let ghost ps0 = self.pieces@;
        let ghost loc = locate_in(ps0, char_offset as int, 0);
        let i = self.split_at(char_offset);
        let ghost orig = self.orig@;
        let ghost add = self.add@;
        let ghost mid = self.pieces@;
        let ghost mut m: int = i as int;
        let ghost mut c: int = if loc.1 == ps0[loc.0].len { 0 } else { loc.1 };
        proof {
            lemma_text_cut(self.pieces@, i as int, orig, add);
            if c == 0 {
                assert(mid.subrange(i as int, mid.len() as int) == ps0.subrange(i as int, ps0.len() as int));
            }
        }
        let mut rest: usize = len;
        while rest > 0
            invariant
                self.wf(),
                orig == self.orig@,
                add == self.add@,
                old_text.len() == total,
                char_offset + len <= total,
                1 <= i <= self.pieces@.len(),
                rest <= len,
                text_of(self.pieces@.subrange(0, i as int), orig, add) == old_text.subrange(0, char_offset as int),
                text_of(self.pieces@.subrange(i as int, self.pieces@.len() as int), orig, add)
                    == old_text.subrange(char_offset + len - rest, total as int),
                all_pieces_ok(ps0, orig, add),
                self.pieces@.subrange(0, i as int) == mid.subrange(0, i as int),
                0 <= m <= ps0.len(),
                i <= m,
                kept_tail(ps0, self.pieces@, i as int, m, c),
            decreases rest + self.pieces@.len(),
        {
            let ghost ps = self.pieces@;
            if i >= self.pieces.len() {
                // codepoints are still to be removed, so pieces remain
                assert(ps.subrange(i as int, ps.len() as int) == Seq::<PieceRecord>::empty());
                assert(text_of(Seq::<PieceRecord>::empty(), orig, add) == Seq::<char>::empty());
                assert(false);
            }
            proof {
                assert forall|x: int| 0 <= x < ps0.len() implies (#[trigger] ps0[x]).well_formed() by {
                    assert(piece_ok(ps0[x], orig, add));
                }
                assert(piece_ok(ps[i as int], orig, add));
            }
            let mut p = self.pieces.remove(i);
            if p.len <= rest {
                proof {
                    self.lemma_delete_drop_text(ps, i as int, old_text, char_offset + len - rest, total as int);
                    lemma_text_cut(self.pieces@, i as int, orig, add);
                    lemma_text_cut(ps, i as int, orig, add);
                    assert(self.pieces@[0] == ps[0]);
                    let nm = lemma_tail_drop(ps0, ps, i as int, m, c);
                    m = nm.0;
                    c = nm.1;
                    assert(self.pieces@.subrange(0, i as int) == ps.subrange(0, i as int));
                }
                rest = rest - p.len;
            } else {
                let ghost whole = p;
                let right = p.split(rest);
                match right {
                    Some(r) => {
                        proof {
                            lemma_split_sound(whole, rest as int, p, r, orig, add);
                        }
                        self.pieces.insert(i, r);
                        proof {
                            assert(self.pieces@ =~= ps.update(i as int, r));
                            lemma_text_cut(self.pieces@, i as int, orig, add);
                            lemma_text_cut(ps, i as int, orig, add);
                            assert(self.pieces@[0] == ps[0]);
                            self.lemma_delete_trim_text(ps, i as int, whole, r, rest as int, old_text,
                                char_offset + len - rest, total as int);
                            let nm = lemma_tail_trim(ps0, ps, i as int, m, c, r, rest as int);
                            m = nm.0;
                            c = nm.1;
                            assert(self.pieces@ == ps.update(i as int, r));
                            assert(self.pieces@.subrange(0, i as int) == ps.subrange(0, i as int));
                        }
                        rest = 0;
                    },
                    None => {
                        // the piece is longer than what is left to remove
                        assert(false);
                    },
                }
            }
        }
        proof {
            lemma_text_cut(self.pieces@, i as int, orig, add);
            let qs = self.pieces@;
            let j = loc.0;
            assert(qs.subrange(0, j) == mid.subrange(0, j));
            assert(qs[j] == mid[j]);
            if loc.1 != ps0[j].len {
                assert(mid.subrange(0, j) == ps0.subrange(0, j));
            }
            assert(kept_tail(ps0, qs, j + 1, m, c));
        }
        Ok(())
    }

    /// The codepoints in `[start, end)`, read piece by piece from the buffers.
    #[verifier::rlimit(40)]
    fn collect_range(&self, start: usize, end: usize) -> (r: String)
        requires
            self.wf(),
            start <= end <= self@.len(),
        ensures
            r@ == self@.subrange(start as int, end as int),
    {
        let ghost ps = self.pieces@;
        let ghost orig = self.orig@;
        let ghost add = self.add@;
        let ghost view = self@;
        let mut out = String::new();
        let mut off: usize = 0;
        let mut j: usize = 0;
        while j < self.pieces.len()
            invariant
                self.wf(),
                ps == self.pieces@,
                orig == self.orig@,
                add == self.add@,
                view == self@,
                start <= end <= view.len(),
                j <= ps.len(),
                off == text_of(ps.subrange(0, j as int), orig, add).len(),
                out@ == view.subrange(min_int(start as int, off as int), min_int(end as int, off as int)),
            decreases ps.len() - j,
        {
            let p = &self.pieces[j];
            let ghost pt = piece_text(ps[j as int], orig, add);
            proof {
                lemma_text_step(ps, j as int, orig, add);
                lemma_text_cut(ps, j + 1, orig, add);
                assert(piece_ok(ps[j as int], orig, add));
                assert(view.subrange(off as int, off + p.len) == pt);
                lemma_range_extend(view, start as int, end as int, off as int, off + p.len);
            }
            let pend = off + p.len;
            let lo = if start > off { start } else { off };
            let hi = if end < pend { end } else { pend };
            if lo < hi {
                let buf = match p.ty {
                    PieceType::Orig => self.orig.as_str(),
                    PieceType::Add => self.add.as_str(),
                };
                let part = buf.substring_char(p.beg + (lo - off), p.beg + (hi - off));
                assert(part@ == view.subrange(lo as int, hi as int));
                out.append(part);
            }
            off = pend;
            j += 1;
        }
        assert(ps.subrange(0, j as int) == ps);
        out
    }

    /// The document as one string: each piece's slice of its buffer, in order.
    pub fn content(&self) -> (r: String)
        requires
            self.wf(),
        ensures
            r@ == self@,
            r@ == text_of(self.piece_list(), self.original(), self.added()),
    {
        let total = self.length();
        let r = self.collect_range(0, total);
        assert(self@.subrange(0, total as int) == self@);
        r
    }

    /// Document offset of the `k`-th line terminator, read from the pieces'
    /// break caches without looking at the text.
    fn break_position(&self, k: usize) -> (r: usize)
        requires
            self.wf(),
            k < breaks_of(self@).len(),
        ensures
            r == breaks_of(self@)[k as int],
    {
        let ghost ps = self.pieces@;
        let ghost orig = self.orig@;
        let ghost add = self.add@;
        let ghost view = self@;
        let mut off: usize = 0;
        let mut seen: usize = 0;
        let mut j: usize = 0;
        while j < self.pieces.len()
            invariant
                self.wf(),
                ps == self.pieces@,
                orig == self.orig@,
                add == self.add@,
                view == self@,
                k < breaks_of(view).len(),
                j <= ps.len(),
                off == text_of(ps.subrange(0, j as int), orig, add).len(),
                seen == breaks_of(text_of(ps.subrange(0, j as int), orig, add)).len(),
                seen <= k,
            decreases ps.len() - j,
        {
            let p = &self.pieces[j];
            let ghost pre = text_of(ps.subrange(0, j as int), orig, add);
            let ghost pre1 = text_of(ps.subrange(0, j + 1), orig, add);
            let ghost post = text_of(ps.subrange(j + 1, ps.len() as int), orig, add);
            let ghost pt = piece_text(ps[j as int], orig, add);
            proof {
                lemma_text_step(ps, j as int, orig, add);
                lemma_text_cut(ps, j + 1, orig, add);
                lemma_breaks_concat(pre, pt);
                lemma_breaks_concat(pre1, post);
                lemma_breaks_len(view);
                lemma_breaks_len(pt);
                lemma_breaks_valid(pt);
                assert(piece_ok(ps[j as int], orig, add));
                assert(as_ints(p.line_breaks@).len() == p.line_breaks@.len());
            }
            let c = p.line_breaks.len();
            if k < seen + c {
                let b = p.line_breaks[k - seen];
                proof {
                    assert(as_ints(p.line_breaks@)[k - seen] == b as int);
                    assert(breaks_of(view)[k as int] == breaks_of(pre1)[k as int]);
                    assert(breaks_of(pre1)[k as int] == shifted(breaks_of(pt), off as int)[k - seen]);
                }
                return off + b;
            }
            seen = seen + c;
            off = off + p.len;
            j += 1;
        }
        // the walk has counted every break, more than `k`
        assert(ps.subrange(0, j as int) == ps);
        assert(false);
        0
    }

    /// Line `i` (from 0) of the document, without its terminator. Line
    /// boundaries come from the break caches.
    pub fn line(&self, i: usize) -> (r: Result<String, PieceTableError>)
        requires
            self.wf(),
        ensures
            r is Ok <==> i < breaks_of(self@).len() + 1,
            r matches Ok(s) ==> s@ == line_text(self@, i as int),
            r is Err ==> r == Err::<String, PieceTableError>(PieceTableError::OutOfBounds),
    {
        let count = self.lines_count();
        if i >= count {
            return Err(PieceTableError::OutOfBounds);
        }
        proof {
            lemma_breaks_valid(self@);
        }
        let start = if i == 0 {
            0
        } else {
            self.break_position(i - 1) + 1
        };
        let end = if i + 1 < count {
            self.break_position(i)
        } else {
            self.length()
        };
        Ok(self.collect_range(start, end))
    }

    /// Inserts the single codepoint `ch` at `char_offset`.
    pub fn insert_char_at(&mut self, char_offset: usize, ch: char) -> (r: Result<(), PieceTableError>)
        requires
            old(self).wf(),
            old(self)@.len() + 1 < usize::MAX,
        ensures
            final(self).wf(),
            r is Ok <==> char_offset <= old(self)@.len(),
            r is Ok ==> final(self)@ == old(self)@.insert(char_offset as int, ch),
            r is Ok ==> final(self).added() == old(self).added().push(ch),
            r is Ok ==> insert_shape(old(self).piece_list(), final(self).piece_list(), char_offset as int,
                old(self).added().len() as int, seq![ch]),
            r is Err ==> r == Err::<(), PieceTableError>(PieceTableError::OutOfBounds) && *final(self) == *old(self),
            final(self).original() == old(self).original(),
    {
        let s = char_string(ch);
        let ghost before = self@;
        let ghost added_before = self.add@;
        let r = self.insert(char_offset, s.as_str());
        if r.is_ok() {
            assert(before.subrange(0, char_offset as int) + seq![ch] + before.subrange(char_offset as int, before.len() as int)
                == before.insert(char_offset as int, ch));
            assert(added_before + seq![ch] == added_before.push(ch));
        }
        r
    }

    /// Removes the codepoint before `char_offset`, as a backspace at that
    /// offset does: at the end of the document it removes the last one. At
    /// offset 0 there is none, which is `OutOfBounds`.
    pub fn delete_char_at(&mut self, char_offset: usize) -> (r: Result<(), PieceTableError>)
        requires
            old(self).wf(),
        ensures
            final(self).wf(),
            r is Ok <==> 1 <= char_offset <= old(self)@.len(),
            r is Ok ==> final(self)@ == old(self)@.remove(char_offset - 1),
            r is Ok ==> delete_shape(old(self).piece_list(), final(self).piece_list(), char_offset - 1),
            r is Err ==> r == Err::<(), PieceTableError>(PieceTableError::OutOfBounds) && *final(self) == *old(self),
            final(self).original() == old(self).original(),
            final(self).added() == old(self).added(),
    {
        if char_offset == 0 {
            return Err(PieceTableError::OutOfBounds);
        }
        let ghost before = self@;
        let r = self.delete(char_offset - 1, 1);
        if r.is_ok() {
            assert(before.subrange(0, char_offset - 1) + before.subrange(char_offset as int, before.len() as int)
                == before.remove(char_offset - 1));
        }
        r
    }

    /// The piece sequence, the sentinel first.
    pub fn pieces(&self) -> (r: &[PieceRecord])
        ensures
            r@ == self.piece_list(),
    {
        self.pieces.as_slice()
    }

    /// Number of lines: one more than the number of line terminators.
    pub fn lines_count(&self) -> (r: usize)
        requires
            self.wf(),
        ensures
            r == breaks_of(self@).len() + 1,
            r == break_count_sum(self.piece_list()) + 1,
    {
        let ghost ps = self.pieces@;
        let ghost orig = self.orig@;
        let ghost add = self.add@;
        let mut count: usize = 0;
        let mut j: usize = 0;
        while j < self.pieces.len()
            invariant
                self.wf(),
                ps == self.pieces@,
                orig == self.orig@,
                add == self.add@,
                j <= ps.len(),
                count == breaks_of(text_of(ps.subrange(0, j as int), orig, add)).len(),
                count == break_count_sum(ps.subrange(0, j as int)),
            decreases ps.len() - j,
        {
            proof {
                let pre = text_of(ps.subrange(0, j as int), orig, add);
                let pt = piece_text(ps[j as int], orig, add);
                lemma_text_step(ps, j as int, orig, add);
                lemma_breaks_concat(pre, pt);
                lemma_text_concat(ps.subrange(0, j + 1), ps.subrange(j + 1, ps.len() as int), orig, add);
                assert(ps.subrange(0, j + 1) + ps.subrange(j + 1, ps.len() as int) == ps);
                lemma_breaks_len(text_of(ps.subrange(0, j + 1), orig, add));
                assert(piece_ok(ps[j as int], orig, add));
                assert(as_ints(ps[j as int].line_breaks@).len() == ps[j as int].line_breaks@.len());
            }
            count = count + self.pieces[j].line_breaks.len();
            j += 1;
        }
        assert(ps.subrange(0, j as int) == ps);
        proof {
            lemma_breaks_len(self@);
        }
        count + 1
    }
}

/// The document is the pieces' slices of the two buffers, in order.
pub proof fn lemma_view_is_piece_text(t: &PieceTable)
    ensures
        t@ == text_of(t.piece_list(), t.original(), t.added()),
{
}

/// Whatever edits led to it, a well-formed table's pieces add up to exactly
/// as many codepoints as its document holds.
pub proof fn lemma_length_is_piece_sum(t: &PieceTable)
    requires
        t.wf(),
    ensures
        t.piece_lengths() == t@.len(),
{
    lemma_text_len(t.pieces@, t.orig@, t.add@);
}

} // verus!
