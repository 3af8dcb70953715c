//! A circular buffer of text lines that never grows: once full, new lines
//! overwrite the oldest ones, always whole lines at a time.
use vstd::prelude::*;
use vstd::string::StringSliceAdditionalSpecFns;
use vstd::utf8::{valid_utf8, encode_utf8, encode_utf8_valid_utf8, valid_utf8_concat};

use crate::lines::{
    LF, is_terminated, terminate, line_boundary, cut_after, lemma_cut_after, find_boundary,
    split_lines, lines_from, join_lines, has_no_lf, lemma_split_append, lemma_split_join,
    lemma_utf8_split_at_ascii, lemma_lf_utf8, utf8_text, append_slice,
};

verus! {

/// The state of a ring buffer: its capacity in bytes, and the two runs of
/// stored bytes with the unused gap between them. The older lines are in
/// `run2`, the newer ones in `run1`.
pub struct RingView {
    pub capacity: nat,
    pub run1: Seq<u8>,
    pub gap: nat,
    pub run2: Seq<u8>,
}

impl RingView {
    /// A buffer that holds nothing.
    pub open spec fn empty(capacity: nat) -> RingView {
        RingView { capacity, run1: seq![], gap: capacity, run2: seq![] }
    }

    /// The stored text, oldest byte first: the second run, then the first.
    pub open spec fn content(self) -> Seq<u8> {
        self.run2 + self.run1
    }

    /// The runs and the gap fit in the capacity, and each run is valid UTF-8
    /// made of whole lines.
    pub open spec fn inv(self) -> bool {
        &&& self.run1.len() + self.gap + self.run2.len() <= self.capacity
        &&& is_terminated(self.run1)
        &&& is_terminated(self.run2)
        &&& valid_utf8(self.run1)
        &&& valid_utf8(self.run2)
    }

    /// `line` is one stored line: valid UTF-8 closed by a line feed, and no
    /// longer than the capacity.
    pub open spec fn fits(self, line: Seq<u8>) -> bool {
        &&& 0 < line.len() <= self.capacity
        &&& line.last() == LF
        &&& valid_utf8(line)
    }

    /// The state after storing the terminated `line`.
    pub open spec fn append_line(self, line: Seq<u8>) -> RingView {
        let len = line.len();
        let run1 = self.run1;
        let gap = self.gap;
        let run2 = self.run2;
        if len <= gap {
            // the line fits in the gap
            RingView { capacity: self.capacity, run1: run1 + line, gap: (gap - len) as nat, run2 }
        } else if len <= gap + run2.len() {
            // the line takes the gap and whole lines from the front of run2
            let freed = line_boundary(run2, len - gap);
            RingView {
                capacity: self.capacity,
                run1: run1 + line,
                gap: (gap + freed - len) as nat,
                run2: run2.subrange(freed, run2.len() as int),
            }
        } else if len <= self.capacity - run1.len() {
            // the line fits before the end of the storage; run2 is dropped
            RingView {
                capacity: self.capacity,
                run1: run1 + line,
                gap: (self.capacity - run1.len() - len) as nat,
                run2: seq![],
            }
        } else if len <= run1.len() {
            // wrap around: the line takes whole lines from the front of run1,
            // whose rest becomes the older run
            let consumed = line_boundary(run1, len as int);
            RingView {
                capacity: self.capacity,
                run1: line,
                gap: (consumed - len) as nat,
                run2: run1.subrange(consumed, run1.len() as int),
            }
        } else {
            // the line replaces everything
            RingView {
                capacity: self.capacity,
                run1: line,
                gap: (self.capacity - len) as nat,
                run2: seq![],
            }
        }
    }
}

/// The cut that `line_boundary` finds in a run of whole lines lies at or past
/// `size` and follows a line feed, so what remains after it is whole lines of
/// valid UTF-8.
proof fn lemma_run_cut(run: Seq<u8>, size: int)
    requires
        is_terminated(run),
        valid_utf8(run),
        1 <= size <= run.len(),
    ensures
        size <= line_boundary(run, size) <= run.len(),
        is_terminated(run.subrange(line_boundary(run, size), run.len() as int)),
        valid_utf8(run.subrange(line_boundary(run, size), run.len() as int)),
{
    let c = line_boundary(run, size);
    lemma_cut_after(run, size - 1);
    if c < run.len() {
        lemma_utf8_split_at_ascii(run, c - 1);
    } else {
        assert(run.subrange(c, run.len() as int) =~= Seq::<u8>::empty());
    }
}

/// Storing a line keeps the runs and the gap within the capacity, and each run
/// whole lines of valid UTF-8.
pub proof fn lemma_append_keeps_inv(v: RingView, line: Seq<u8>)
    requires
        v.inv(),
        v.fits(line),
    ensures
        v.append_line(line).inv(),
        v.append_line(line).capacity == v.capacity,
{
    let len = line.len();
    valid_utf8_concat(v.run1, line);
    if len <= v.gap {
    } else if len <= v.gap + v.run2.len() {
        lemma_run_cut(v.run2, len - v.gap);
    } else if len <= v.capacity - v.run1.len() {
    } else if len <= v.run1.len() {
        lemma_run_cut(v.run1, len as int);
    } else {
    }
}

/// The stored lines hold no line feed, and each closed again by a line feed
/// they give back the stored text.
pub proof fn lemma_stored_lines(v: RingView)
    requires
        v.inv(),
    ensures
        join_lines(split_lines(v.content())) == v.content(),
        forall|k: int|
            0 <= k < split_lines(v.content()).len() ==> has_no_lf(
                #[trigger] split_lines(v.content())[k],
            ),
{
    assert(is_terminated(v.content()));
    lemma_split_join(v.content());
}

/// How many bytes, counted from the oldest, storing `line` drops from the
/// stored text followed by `line`.
pub open spec fn dropped(v: RingView, line: Seq<u8>) -> int {
    v.content().len() + line.len() - v.append_line(line).content().len()
}

/// Storing a line keeps a suffix of the stored text followed by the line: it
/// drops only stored bytes, never the new line, and what it drops ends with a
/// line feed, so no part of a line is left behind.
pub proof fn lemma_append_drops_whole_lines(v: RingView, line: Seq<u8>)
    requires
        v.inv(),
        v.fits(line),
    ensures
        0 <= dropped(v, line) <= v.content().len(),
        v.append_line(line).content() == (v.content() + line).skip(dropped(v, line)),
        dropped(v, line) == 0 || (v.content() + line)[dropped(v, line) - 1] == LF,
{
    let len = line.len();
    let all = v.content() + line;
    let run1 = v.run1;
    let run2 = v.run2;
    let w = v.append_line(line);
    if len <= v.gap {
        assert(w.content() =~= all.subrange(0, all.len() as int));
    } else if len <= v.gap + run2.len() {
        lemma_run_cut(run2, len - v.gap);
        let freed = line_boundary(run2, len - v.gap);
        lemma_cut_after(run2, len - v.gap - 1);
        assert(w.content() =~= all.subrange(freed, all.len() as int));
        assert(all[freed - 1] == run2[freed - 1]);
    } else if len <= v.capacity - run1.len() {
        assert(w.content() =~= all.subrange(run2.len() as int, all.len() as int));
    } else if len <= run1.len() {
        lemma_run_cut(run1, len as int);
        let consumed = line_boundary(run1, len as int);
        lemma_cut_after(run1, len - 1);
        assert(w.content() =~= all.subrange(run2.len() + consumed, all.len() as int));
        assert(all[run2.len() + consumed - 1] == run1[consumed - 1]);
    } else {
        assert(w.content() =~= all.subrange(v.content().len() as int, all.len() as int));
        if run1.len() == 0 && run2.len() > 0 {
            assert(all[v.content().len() - 1] == run2[run2.len() - 1]);
        }
    }
}

/// Storing a line keeps the order of lines: the stored lines afterwards are
/// the lines stored before, then those of the new line, with some of the
/// oldest stored lines dropped.
pub proof fn lemma_append_keeps_order(v: RingView, line: Seq<u8>)
    requires
        v.inv(),
        v.fits(line),
    ensures
        exists|n: int|
            0 <= n <= split_lines(v.content()).len() && split_lines(
                v.append_line(line).content(),
            ) == (split_lines(v.content()) + split_lines(line)).skip(n),
{
    lemma_append_drops_whole_lines(v, line);
    let old_text = v.content();
    let all = old_text + line;
    let d = dropped(v, line);
    let kept = old_text.subrange(d, old_text.len() as int);
    let gone = old_text.subrange(0, d);
    assert(old_text =~= gone + kept);
    assert(v.append_line(line).content() =~= kept + line);
    assert(is_terminated(old_text));
    assert(is_terminated(gone));
    assert(is_terminated(kept));
    lemma_split_append(gone, kept);
    lemma_split_append(kept, line);
    lemma_split_append(old_text, line);
    let n = split_lines(gone).len() as int;
    assert(split_lines(kept + line) =~= (split_lines(old_text) + split_lines(line)).skip(n));
}

/// A fixed-capacity circular buffer of text lines.
///
/// The storage holds the first run at its start, then the gap, then the second
/// run; the second run holds the older lines.
#[derive(Debug)]
pub struct CircularString {
    buffer: Vec<u8>,
    len1: usize,
    gap: usize,
    len2: usize,
}

impl View for CircularString {
    type V = RingView;

    closed spec fn view(&self) -> RingView {
        RingView {
            capacity: self.buffer@.len(),
            run1: self.buffer@.subrange(0, self.len1 as int),
            gap: self.gap as nat,
            run2: self.buffer@.subrange(
                self.len1 + self.gap,
                self.len1 + self.gap + self.len2,
            ),
        }
    }
}

impl CircularString {
    /// The counters lie within the storage and the view is well formed.
    pub closed spec fn wf(&self) -> bool {
        &&& self.len1 + self.gap + self.len2 <= self.buffer@.len()
        &&& self.buffer@.len() <= usize::MAX
        &&& self@.inv()
    }

    /// An empty buffer of `capacity` bytes.
    pub fn with_capacity(capacity: usize) -> (r: CircularString)
        ensures
            r.wf(),
            r@ == RingView::empty(capacity as nat),
    {
        let r = CircularString { buffer: vec![0; capacity], len1: 0, gap: capacity, len2: 0 };
        assert(r@.run1 =~= Seq::<u8>::empty());
        assert(r@.run2 =~= Seq::<u8>::empty());
        r
    }

    /// The number of stored bytes.
    pub fn len(&self) -> (r: usize)
        requires
            self.wf(),
        ensures
            r == self@.run1.len() + self@.run2.len(),
    {
        self.len1 + self.len2
    }

    /// The size of the storage in bytes.
    pub fn capacity(&self) -> (r: usize)
        ensures
            r == self@.capacity,
    {
        self.buffer.len()
    }

    /// The lengths of the first run, of the gap and of the second run.
    pub fn layout(&self) -> (r: (usize, usize, usize))
        requires
            self.wf(),
        ensures
            r.0 == self@.run1.len(),
            r.1 == self@.gap,
            r.2 == self@.run2.len(),
    {
        (self.len1, self.gap, self.len2)
    }

    /// Writes `bytes`, and a line feed when `add_eol`, at `offset`; the
    /// counters do not change.
    fn write_line(&mut self, offset: usize, bytes: &[u8], add_eol: bool)
        requires
            offset + bytes@.len() + (if add_eol { 1int } else { 0int }) <= old(self).buffer@.len(),
            old(self).buffer@.len() <= usize::MAX,
        ensures
            final(self).len1 == old(self).len1,
            final(self).gap == old(self).gap,
            final(self).len2 == old(self).len2,
            final(self).buffer@.len() == old(self).buffer@.len(),
            ({
                let line = if add_eol { bytes@.push(LF) } else { bytes@ };
                let end = offset + line.len();
                &&& final(self).buffer@.subrange(offset as int, end) == line
                &&& forall|j: int|
                    0 <= j < old(self).buffer@.len() && !(offset <= j < end)
                        ==> final(self).buffer@[j] == old(self).buffer@[j]
            }),
    {
        let mut i: usize = 0;
        while i < bytes.len()
            invariant
                offset + bytes@.len() + (if add_eol { 1int } else { 0int }) <= self.buffer@.len(),
                self.buffer@.len() == old(self).buffer@.len(),
                self.buffer@.len() <= usize::MAX,
                self.len1 == old(self).len1,
                self.gap == old(self).gap,
                self.len2 == old(self).len2,
                i <= bytes@.len(),
                forall|j: int| 0 <= j < i ==> self.buffer@[offset + j] == bytes@[j],
                forall|j: int|
                    0 <= j < old(self).buffer@.len() && !(offset <= j < offset + i)
                        ==> self.buffer@[j] == old(self).buffer@[j],
            decreases bytes.len() - i,
        {
            self.buffer[offset + i] = bytes[i];
            i = i + 1;
        }
        if add_eol {
            self.buffer[offset + i] = LF;
        }
        let ghost line = if add_eol { bytes@.push(LF) } else { bytes@ };
        assert(self.buffer@.subrange(offset as int, offset + line.len()) =~= line);
    }

    /// Stores `s` as one line, adding a line feed when it does not end with
    /// one. Whole lines are dropped from the oldest end when room is needed.
    /// The line must fit in the capacity.
    #[verifier::rlimit(60)]
    pub fn push(&mut self, s: &str)
        requires
            old(self).wf(),
            terminate(s.spec_bytes()).len() <= old(self)@.capacity,
        ensures
            final(self).wf(),
            final(self)@ == old(self)@.append_line(terminate(s.spec_bytes())),
    {
        let bytes = s.as_bytes();
        let add_eol = bytes.len() == 0 || bytes[bytes.len() - 1] != LF;
        let ghost line = terminate(bytes@);
        proof {
            encode_utf8_valid_utf8(s@);
            lemma_lf_utf8();
            if add_eol {
                assert(line =~= bytes@ + seq![LF]);
                valid_utf8_concat(bytes@, seq![LF]);
            }
        }
        let len = if add_eol {
            bytes.len() + 1
        } else {
            bytes.len()
        };
        let ghost v = self@;
        proof {
            assert(line.len() == len);
            assert(line.last() == LF);
            assert(v.fits(line));
            lemma_append_keeps_inv(v, line);
        }
        let l1 = self.len1;
        let gap = self.gap;
        let l2 = self.len2;
        let cap = self.buffer.len();
        if len <= gap {
            self.write_line(l1, bytes, add_eol);
            self.len1 = l1 + len;
            self.gap = gap - len;
            assert(self@.run1 =~= v.run1 + line);
            assert(self@.run2 =~= v.run2);
        } else if len <= gap + l2 {
            let from_l2 = find_boundary(&self.buffer.as_slice()[l1 + gap..l1 + gap + l2], len - gap);
            proof {
                lemma_run_cut(v.run2, len - gap);
            }
            self.write_line(l1, bytes, add_eol);
            self.len1 = l1 + len;
            self.gap = gap + from_l2 - len;
            self.len2 = l2 - from_l2;
            assert(self@.run1 =~= v.run1 + line);
            assert(self@.run2 =~= v.run2.subrange(from_l2 as int, l2 as int));
        } else if len <= cap - l1 {
            self.write_line(l1, bytes, add_eol);
            self.len1 = l1 + len;
            self.gap = cap - self.len1;
            self.len2 = 0;
            assert(self@.run1 =~= v.run1 + line);
            assert(self@.run2 =~= Seq::<u8>::empty());
        } else if len <= l1 {
            let min_size = find_boundary(&self.buffer.as_slice()[0..l1], len);
            proof {
                assert(self.buffer@.subrange(0, l1 as int) == v.run1);
                lemma_run_cut(v.run1, len as int);
            }
            self.write_line(0, bytes, add_eol);
            self.len1 = len;
            self.gap = min_size - len;
            self.len2 = l1 - min_size;
            assert(self@.run1 =~= line);
            assert(self@.run2 =~= v.run1.subrange(min_size as int, l1 as int));
        } else {
            self.write_line(0, bytes, add_eol);
            self.len1 = len;
            self.gap = cap - len;
            self.len2 = 0;
            assert(self@.run1 =~= line);
            assert(self@.run2 =~= Seq::<u8>::empty());
        }
    }

    /// The stored text, oldest line first.
    pub fn to_string(&self) -> (r: String)
        requires
            self.wf(),
        ensures
            encode_utf8(r@) == self@.content(),
    {
        let start2 = self.len1 + self.gap;
        let mut out: Vec<u8> = Vec::with_capacity(self.len1 + self.len2);
        append_slice(&mut out, &self.buffer.as_slice()[start2..start2 + self.len2]);
        append_slice(&mut out, &self.buffer.as_slice()[0..self.len1]);
        proof {
            valid_utf8_concat(self@.run2, self@.run1);
            assert(out@ =~= self@.content());
        }
        utf8_text(out.as_slice())
    }

    /// The stored lines, oldest first, each without its line feed.
    pub fn lines(&self) -> (r: Vec<String>)
        requires
            self.wf(),
        ensures
            text_bytes(r@) == split_lines(self@.content()),
    {
        let start2 = self.len1 + self.gap;
        let mut out: Vec<String> = Vec::new();
        push_lines(&self.buffer, start2, start2 + self.len2, &mut out);
        push_lines(&self.buffer, 0, self.len1, &mut out);
        proof {
            lemma_split_append(self@.run2, self@.run1);
            assert(text_bytes(Seq::<String>::empty()) =~= Seq::<Seq<u8>>::empty());
            assert(text_bytes(out@) =~= split_lines(self@.run2) + split_lines(self@.run1));
        }
        out
    }
}

/// The bytes of each text, in order.
pub open spec fn text_bytes(ts: Seq<String>) -> Seq<Seq<u8>> {
    ts.map_values(|t: String| encode_utf8(t@))
}

/// Appends to `out` the lines of `buf[from..to]`, each without its line feed.
fn push_lines(buf: &Vec<u8>, from: usize, to: usize, out: &mut Vec<String>)
    requires
        from <= to <= buf@.len(),
        is_terminated(buf@.subrange(from as int, to as int)),
        valid_utf8(buf@.subrange(from as int, to as int)),
    ensures
        text_bytes(final(out)@) == text_bytes(old(out)@) + split_lines(
            buf@.subrange(from as int, to as int),
        ),
{
    let ghost seg = buf@.subrange(from as int, to as int);
    let ghost init = out@;
    let mut start: usize = from;
    let mut i: usize = from;
    assert(seg.subrange(0, seg.len() as int) =~= seg);
    while i < to
        invariant
            from <= start <= i <= to <= buf@.len(),
            seg == buf@.subrange(from as int, to as int),
            text_bytes(out@) + lines_from(seg, start - from) == text_bytes(init) + lines_from(
                seg,
                0,
            ),
            forall|j: int| start <= j < i ==> buf@[j] != LF,
            valid_utf8(seg.subrange(start - from, seg.len() as int)),
        decreases to - i,
    {
        if buf[i] == LF {
            let ghost k = start - from;
            let ghost rest = seg.subrange(k, seg.len() as int);
            proof {
                lemma_cut_after(seg, k);
                assert(seg[i - from] == LF);
                assert(cut_after(seg, k) == i - from + 1);
                lemma_utf8_split_at_ascii(rest, i - from - k);
                assert(rest.subrange(0, i - from - k) =~= buf@.subrange(start as int, i as int));
                assert(rest.subrange(i - from - k + 1, rest.len() as int) =~= seg.subrange(
                    i - from + 1,
                    seg.len() as int,
                ));
                assert(seg.subrange(k, i - from) =~= buf@.subrange(start as int, i as int));
            }
            let line = utf8_text(&buf.as_slice()[start..i]);
            let ghost before = out@;
            out.push(line);
            proof {
                assert(text_bytes(out@) =~= text_bytes(before).push(encode_utf8(line@)));
                assert(lines_from(seg, k) =~= seq![buf@.subrange(start as int, i as int)]
                    + lines_from(seg, i - from + 1));
                assert(text_bytes(out@) + lines_from(seg, i - from + 1) =~= text_bytes(before)
                    + lines_from(seg, k));
            }
            start = i + 1;
        }
        i = i + 1;
    }
    proof {
        if start < to {
            assert(seg[seg.len() - 1] == LF);
            assert(buf@[to - 1] == LF);
        }
        assert(lines_from(seg, start - from) =~= Seq::<Seq<u8>>::empty());
        assert(text_bytes(out@) =~= text_bytes(out@) + Seq::<Seq<u8>>::empty());
    }
}

} // verus!
