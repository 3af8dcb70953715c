//! Byte-level facts about line-feed terminated text.
use vstd::prelude::*;
use vstd::utf8::*;

verus! {

/// The line terminator.
pub const LF: u8 = 10;

/// `s` is empty or ends with a line feed.
pub open spec fn is_terminated(s: Seq<u8>) -> bool {
    s.len() == 0 || s.last() == LF
}

/// The bytes of `s`, with a line feed added when `s` does not already end with one.
pub open spec fn terminate(s: Seq<u8>) -> Seq<u8> {
    if s.len() > 0 && s.last() == LF {
        s
    } else {
        s.push(LF)
    }
}

/// The offset just past the first line feed of `s` at or after `from`, or the
/// length of `s` when no line feed follows.
pub open spec fn cut_after(s: Seq<u8>, from: int) -> int
    decreases s.len() - from,
{
    if from < 0 || from >= s.len() {
        s.len() as int
    } else if s[from] == LF {
        from + 1
    } else {
        cut_after(s, from + 1)
    }
}

/// The smallest cut of `s` that follows a line feed and frees at least `size`
/// bytes from its front; all of `s` when no such cut exists.
pub open spec fn line_boundary(s: Seq<u8>, size: int) -> int {
    cut_after(s, if size > 0 { size - 1 } else { 0 })
}

/// What a cut found by `cut_after` is: it lies past `from`, follows a line feed
/// unless it is the end, and no line feed lies between `from` and it.
pub proof fn lemma_cut_after(s: Seq<u8>, from: int)
    requires
        0 <= from <= s.len(),
    ensures
        from <= cut_after(s, from) <= s.len(),
        from < s.len() ==> from < cut_after(s, from),
        cut_after(s, from) == s.len() || s[cut_after(s, from) - 1] == LF,
        forall|i: int|
            from <= i < cut_after(s, from) - 1 ==> s[i] != LF,
        cut_after(s, from) == s.len() ==> forall|i: int| from <= i < s.len() - 1 ==> s[i] != LF,
    decreases s.len() - from,
{
    if from < s.len() && s[from] != LF {
        lemma_cut_after(s, from + 1);
    }
}

/// Searches `buffer` for the smallest cut that follows a line feed and frees at
/// least `size` bytes; returns the whole length when there is none.
pub fn find_boundary(buffer: &[u8], size: usize) -> (r: usize)
    ensures
        r as int == line_boundary(buffer@, size as int),
{
    let mut i: usize = if size > 0 {
        size - 1
    } else {
        0
    };
    while i < buffer.len()
        invariant
            cut_after(buffer@, i as int) == line_boundary(buffer@, size as int),
        decreases buffer.len() - i,
    {
        if buffer[i] == LF {
            return i + 1;
        }
        i = i + 1;
    }
    buffer.len()
}

/// No byte of `l` is a line feed.
pub open spec fn has_no_lf(l: Seq<u8>) -> bool {
    forall|j: int| 0 <= j < l.len() ==> l[j] != LF
}

/// The lines of `s` from offset `start` on, each without its line feed; a last
/// line that lacks one ends at the end of `s`.
pub open spec fn lines_from(s: Seq<u8>, start: int) -> Seq<Seq<u8>>
    decreases s.len() - start,
{
    if start < 0 || start >= s.len() {
        seq![]
    } else {
        let end = cut_after(s, start);
        if !(start < end <= s.len()) {
            // never taken: a cut lies past its starting point, within `s`
            seq![]
        } else {
            let body_end = if s[end - 1] == LF {
                end - 1
            } else {
                end
            };
            seq![s.subrange(start, body_end)] + lines_from(s, end)
        }
    }
}

/// The lines of `s`, in order, each without its line feed.
pub open spec fn split_lines(s: Seq<u8>) -> Seq<Seq<u8>> {
    lines_from(s, 0)
}

/// Each line followed by a line feed, all concatenated in order.
pub open spec fn join_lines(ls: Seq<Seq<u8>>) -> Seq<u8>
    decreases ls.len(),
{
    if ls.len() == 0 {
        seq![]
    } else {
        ls[0] + seq![LF] + join_lines(ls.drop_first())
    }
}

proof fn lemma_lines_from_join(s: Seq<u8>, start: int)
    requires
        is_terminated(s),
        0 <= start <= s.len(),
    ensures
        join_lines(lines_from(s, start)) == s.subrange(start, s.len() as int),
        forall|k: int|
            0 <= k < lines_from(s, start).len() ==> has_no_lf(#[trigger] lines_from(s, start)[k]),
    decreases s.len() - start,
{
    if start < s.len() {
        let end = cut_after(s, start);
        lemma_cut_after(s, start);
        lemma_lines_from_join(s, end);
        let ls = lines_from(s, start);
        assert(ls.drop_first() =~= lines_from(s, end));
        assert(s.subrange(start, end - 1) + seq![LF] + s.subrange(end, s.len() as int)
            =~= s.subrange(start, s.len() as int));
    } else {
        assert(s.subrange(start, s.len() as int) =~= Seq::<u8>::empty());
    }
}

/// The lines of terminated text, each closed again by a line feed, give the text
/// back, and none of them holds a line feed.
pub proof fn lemma_split_join(s: Seq<u8>)
    requires
        is_terminated(s),
    ensures
        join_lines(split_lines(s)) == s,
        forall|k: int| 0 <= k < split_lines(s).len() ==> has_no_lf(#[trigger] split_lines(s)[k]),
{
    lemma_lines_from_join(s, 0);
    assert(s.subrange(0, s.len() as int) =~= s);
}

proof fn lemma_cut_after_shift(a: Seq<u8>, b: Seq<u8>, j: int)
    requires
        0 <= j <= b.len(),
    ensures
        cut_after(a + b, a.len() + j) == a.len() + cut_after(b, j),
    decreases b.len() - j,
{
    if j < b.len() && b[j] != LF {
        lemma_cut_after_shift(a, b, j + 1);
    }
}

proof fn lemma_lines_from_shift(a: Seq<u8>, b: Seq<u8>, j: int)
    requires
        0 <= j <= b.len(),
    ensures
        lines_from(a + b, a.len() + j) == lines_from(b, j),
    decreases b.len() - j,
{
    if j < b.len() {
        lemma_cut_after_shift(a, b, j);
        lemma_cut_after(b, j);
        let end = cut_after(b, j);
        lemma_lines_from_shift(a, b, end);
        let body_end = if b[end - 1] == LF {
            end - 1
        } else {
            end
        };
        assert((a + b).subrange(a.len() + j, a.len() + body_end) =~= b.subrange(j, body_end));
    }
}

proof fn lemma_cut_after_prefix(a: Seq<u8>, b: Seq<u8>, i: int)
    requires
        is_terminated(a),
        0 <= i < a.len(),
    ensures
        cut_after(a + b, i) == cut_after(a, i),
    decreases a.len() - i,
{
    if a[i] != LF {
        lemma_cut_after_prefix(a, b, i + 1);
    }
}

proof fn lemma_lines_from_append(a: Seq<u8>, b: Seq<u8>, start: int)
    requires
        is_terminated(a),
        0 <= start <= a.len(),
    ensures
        lines_from(a + b, start) == lines_from(a, start) + lines_from(b, 0),
    decreases a.len() - start,
{
    if start == a.len() {
        lemma_lines_from_shift(a, b, 0);
        assert(lines_from(a, start) + lines_from(b, 0) =~= lines_from(b, 0));
    } else {
        lemma_cut_after_prefix(a, b, start);
        lemma_cut_after(a, start);
        let end = cut_after(a, start);
        lemma_lines_from_append(a, b, end);
        let body_end = if a[end - 1] == LF {
            end - 1
        } else {
            end
        };
        assert((a + b).subrange(start, body_end) =~= a.subrange(start, body_end));
        assert(lines_from(a + b, start) =~= seq![a.subrange(start, body_end)] + lines_from(
            a,
            end,
        ) + lines_from(b, 0));
    }
}

/// Terminated text followed by more text has its own lines, then those of the rest.
pub proof fn lemma_split_append(a: Seq<u8>, b: Seq<u8>)
    requires
        is_terminated(a),
    ensures
        split_lines(a + b) == split_lines(a) + split_lines(b),
{
    lemma_lines_from_append(a, b, 0);
}

/// Relies on `String::from_utf8_lossy`: bytes that are valid UTF-8 come back
/// unchanged, as the text that they encode.
#[verifier::external_body]
pub(crate) fn utf8_text(b: &[u8]) -> (r: String)
    ensures
        valid_utf8(b@) ==> encode_utf8(r@) == b@,
{
    String::from_utf8_lossy(b).into_owned()
}

/// Valid UTF-8 split at an ASCII byte, such as a line feed or a space, is
/// valid UTF-8 on both sides of it.
pub proof fn lemma_utf8_split_at_ascii(s: Seq<u8>, i: int)
    requires
        valid_utf8(s),
        0 <= i < s.len(),
        s[i] <= 0x7f,
    ensures
        valid_utf8(s.subrange(0, i)),
        valid_utf8(s.subrange(i + 1, s.len() as int)),
{
    is_char_boundary_iff_is_leading_byte(s, i);
    valid_utf8_split(s, i);
    let t = s.subrange(i, s.len() as int);
    assert(pop_first_scalar(t) =~= s.subrange(i + 1, s.len() as int));
}

/// Bytes that are all ASCII are valid UTF-8.
pub proof fn lemma_ascii_utf8(s: Seq<u8>)
    requires
        forall|i: int| 0 <= i < s.len() ==> s[i] <= 0x7f,
    ensures
        valid_utf8(s),
{
    assert(s.subrange(0, 0) =~= Seq::<u8>::empty());
    assert(partial_valid_utf8(s, 0));
    assert forall|i: int| 0 <= 0 <= i < s.len() <= s.len() implies #[trigger] is_leading_byte_width_1(
        s[i],
    ) by {}
    partial_valid_utf8_extend_ascii_block(s, 0, s.len() as int);
    assert(s.subrange(0, s.len() as int) =~= s);
}

/// A single line feed is valid UTF-8.
pub proof fn lemma_lf_utf8()
    ensures
        valid_utf8(seq![LF]),
{
    lemma_ascii_utf8(seq![LF]);
}

/// Appends the bytes of `src` to `out`.
pub fn append_slice(out: &mut Vec<u8>, src: &[u8])
    ensures
        final(out)@ == old(out)@ + src@,
{
    let ghost init = out@;
    let mut i: usize = 0;
    while i < src.len()
        invariant
            i <= src@.len(),
            out@ == init + src@.subrange(0, i as int),
        decreases src.len() - i,
    {
        out.push(src[i]);
        i = i + 1;
        assert(out@ =~= init + src@.subrange(0, i as int));
    }
    assert(src@.subrange(0, src@.len() as int) =~= src@);
}

} // verus!
