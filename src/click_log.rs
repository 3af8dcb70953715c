//! The bounded in-memory mirror of the click log: the most recent clicks kept
//! in a `CircularString`, fed in the order in which they were made durable.
//!
//! The file itself is handled by the caller: it writes the line that
//! `prepare_append` builds, and reports with `complete_append` whether the
//! write succeeded; only then does the line enter the window.
use vstd::prelude::*;
use vstd::string::StringSliceAdditionalSpecFns;
use vstd::utf8::{encode_utf8, encode_utf8_valid_utf8, valid_utf8_concat, encode_utf8_decode_utf8};

use crate::circular_string::{CircularString, RingView, text_bytes};
use crate::lines::{
    LF, terminate, has_no_lf, split_lines, utf8_text, append_slice, lemma_ascii_utf8,
    lemma_utf8_split_at_ascii,
};

verus! {

/// The field separator of a click line.
pub const SP: u8 = 32;

/// The decimal digits of `n` as ASCII bytes, most significant first.
pub open spec fn decimal(n: nat) -> Seq<u8>
    decreases n,
{
    if n < 10 {
        seq![(48 + n) as u8]
    } else {
        decimal(n / 10).push((48 + n % 10) as u8)
    }
}

proof fn lemma_decimal_ascii(n: nat)
    ensures
        forall|i: int| 0 <= i < decimal(n).len() ==> decimal(n)[i] <= 0x7f,
    decreases n,
{
    if n >= 10 {
        lemma_decimal_ascii(n / 10);
        assert(n % 10 < 10) by (nonlinear_arith);
        assert(decimal(n) == decimal(n / 10).push((48 + n % 10) as u8));
    }
}

/// Relies on the `Display` impl of `u128`, through `ToString`: the decimal
/// digits of `n`, with no sign and no leading zero.
#[verifier::external_body]
fn decimal_bytes(n: u128) -> (r: Vec<u8>)
    ensures
        r@ == decimal(n as nat),
{
    n.to_string().into_bytes()
}

/// The line that records a click: the time, the user, the link's id and the
/// link, separated by single spaces and closed by a line feed.
pub open spec fn click_line(time: nat, user: Seq<u8>, uuid: Seq<u8>, href: Seq<u8>) -> Seq<u8> {
    decimal(time) + seq![SP] + user + seq![SP] + uuid + seq![SP] + href + seq![LF]
}

/// No field of a click holds a line feed.
pub open spec fn single_line_fields(user: Seq<u8>, uuid: Seq<u8>, href: Seq<u8>) -> bool {
    has_no_lf(user) && has_no_lf(uuid) && has_no_lf(href)
}

/// Why a click did not enter the log.
#[derive(Debug, PartialEq, Eq, Structural)]
pub enum AppendError {
    /// A field holds a line feed, which would split the record.
    LineFeedInField,
    /// The line is longer than the whole window.
    TooLong,
    /// Writing the line to the durable log failed.
    WriteFailed,
}

/// The window after replaying `lines`, oldest first, into `v`; each line is
/// closed by a line feed, and a line longer than the window is passed over.
pub open spec fn replay(v: RingView, lines: Seq<Seq<u8>>) -> RingView
    decreases lines.len(),
{
    if lines.len() == 0 {
        v
    } else {
        let w = replay(v, lines.drop_last());
        let line = terminate(lines.last());
        if line.len() <= w.capacity {
            w.append_line(line)
        } else {
            w
        }
    }
}

/// Replaying lines and then appending one more that fits gives the same
/// window as replaying all of them: rehydrating from a log is appending its
/// lines one by one, in order.
pub proof fn lemma_replay_then_append(v: RingView, lines: Seq<Seq<u8>>, line: Seq<u8>)
    requires
        terminate(line).len() <= v.capacity,
    ensures
        replay(v, lines.push(line)) == replay(v, lines).append_line(terminate(line)),
        replay(v, lines).capacity == v.capacity,
{
    lemma_replay_capacity(v, lines);
    assert(lines.push(line).drop_last() =~= lines);
}

proof fn lemma_replay_capacity(v: RingView, lines: Seq<Seq<u8>>)
    ensures
        replay(v, lines).capacity == v.capacity,
    decreases lines.len(),
{
    if lines.len() > 0 {
        lemma_replay_capacity(v, lines.drop_last());
    }
}

/// Whether `bytes`, closed by a line feed, fit in `capacity` bytes.
fn line_fits(bytes: &[u8], capacity: usize) -> (r: bool)
    ensures
        r == (terminate(bytes@).len() <= capacity),
{
    if bytes.len() > 0 && bytes[bytes.len() - 1] == LF {
        bytes.len() <= capacity
    } else {
        bytes.len() < capacity
    }
}

/// Whether `bytes` hold no line feed.
fn no_lf(bytes: &[u8]) -> (r: bool)
    ensures
        r == has_no_lf(bytes@),
{
    let mut i: usize = 0;
    while i < bytes.len()
        invariant
            i <= bytes@.len(),
            forall|j: int| 0 <= j < i ==> bytes@[j] != LF,
        decreases bytes.len() - i,
    {
        if bytes[i] == LF {
            return false;
        }
        i = i + 1;
    }
    true
}

/// The bounded mirror of the click log.
pub struct ClickLog {
    window: CircularString,
}

impl View for ClickLog {
    type V = RingView;

    closed spec fn view(&self) -> RingView {
        self.window@
    }
}

impl ClickLog {
    /// The window is well formed.
    pub closed spec fn wf(&self) -> bool {
        self.window.wf()
    }

    /// An empty mirror whose window holds `capacity` bytes.
    pub fn new(capacity: usize) -> (r: ClickLog)
        ensures
            r.wf(),
            r@ == RingView::empty(capacity as nat),
    {
        ClickLog { window: CircularString::with_capacity(capacity) }
    }

    /// Feeds the lines read back from the durable log, oldest first, into the
    /// window, as if each had been appended in that order; a line longer than
    /// the window is passed over.
    pub fn rehydrate(&mut self, lines: &Vec<String>)
        requires
            old(self).wf(),
        ensures
            final(self).wf(),
            final(self)@ == replay(old(self)@, text_bytes(lines@)),
    {
        let ghost init = self@;
        let mut i: usize = 0;
        assert(text_bytes(lines@).take(0) =~= Seq::<Seq<u8>>::empty());
        while i < lines.len()
            invariant
                i <= lines@.len(),
                self.wf(),
                self@ == replay(init, text_bytes(lines@).take(i as int)),
                self@.capacity == init.capacity,
            decreases lines.len() - i,
        {
            let line = lines[i].as_str();
            assert(text_bytes(lines@).take(i + 1).drop_last() =~= text_bytes(lines@).take(
                i as int,
            ));
            if line_fits(line.as_bytes(), self.window.capacity()) {
                self.window.push(line);
            }
            i = i + 1;
        }
        assert(text_bytes(lines@).take(lines@.len() as int) =~= text_bytes(lines@));
    }

    /// The line to write to the durable log for a click at `time` by `user`
    /// on the link `href` with id `uuid`. Fails when a field holds a line feed,
    /// or when the line would not fit in the window.
    pub fn prepare_append(&self, time: u128, user: &str, uuid: &str, href: &str) -> (r: Result<
        String,
        AppendError,
    >)
        requires
            self.wf(),
        ensures
            !single_line_fields(user.spec_bytes(), uuid.spec_bytes(), href.spec_bytes()) ==> r
                == Err::<String, AppendError>(AppendError::LineFeedInField),
            single_line_fields(user.spec_bytes(), uuid.spec_bytes(), href.spec_bytes())
                && click_line(time as nat, user.spec_bytes(), uuid.spec_bytes(), href.spec_bytes()).len()
                > self@.capacity ==> r == Err::<String, AppendError>(AppendError::TooLong),
            single_line_fields(user.spec_bytes(), uuid.spec_bytes(), href.spec_bytes())
                && click_line(time as nat, user.spec_bytes(), uuid.spec_bytes(), href.spec_bytes()).len()
                <= self@.capacity ==> (r matches Ok(t) && encode_utf8(t@) == click_line(
                time as nat,
                user.spec_bytes(),
                uuid.spec_bytes(),
                href.spec_bytes(),
            )),
    {
        if !(no_lf(user.as_bytes()) && no_lf(uuid.as_bytes()) && no_lf(href.as_bytes())) {
            return Err(AppendError::LineFeedInField);
        }
        let mut out = decimal_bytes(time);
        let sep: Vec<u8> = vec![SP];
        append_slice(&mut out, sep.as_slice());
        append_slice(&mut out, user.as_bytes());
        append_slice(&mut out, sep.as_slice());
        append_slice(&mut out, uuid.as_bytes());
        append_slice(&mut out, sep.as_slice());
        append_slice(&mut out, href.as_bytes());
        out.push(LF);
        let ghost line = click_line(
            time as nat,
            user.spec_bytes(),
            uuid.spec_bytes(),
            href.spec_bytes(),
        );
        assert(out@ =~= line);
        if out.len() > self.window.capacity() {
            return Err(AppendError::TooLong);
        }
        proof {
            lemma_decimal_ascii(time as nat);
            lemma_ascii_utf8(decimal(time as nat));
            lemma_ascii_utf8(seq![SP]);
            lemma_ascii_utf8(seq![LF]);
            encode_utf8_valid_utf8(user@);
            encode_utf8_valid_utf8(uuid@);
            encode_utf8_valid_utf8(href@);
            let d = decimal(time as nat);
            valid_utf8_concat(d, seq![SP]);
            valid_utf8_concat(d + seq![SP], user.spec_bytes());
            valid_utf8_concat(d + seq![SP] + user.spec_bytes(), seq![SP]);
            valid_utf8_concat(d + seq![SP] + user.spec_bytes() + seq![SP], uuid.spec_bytes());
            valid_utf8_concat(
                d + seq![SP] + user.spec_bytes() + seq![SP] + uuid.spec_bytes(),
                seq![SP],
            );
            valid_utf8_concat(
                d + seq![SP] + user.spec_bytes() + seq![SP] + uuid.spec_bytes() + seq![SP],
                href.spec_bytes(),
            );
            valid_utf8_concat(
                d + seq![SP] + user.spec_bytes() + seq![SP] + uuid.spec_bytes() + seq![SP]
                    + href.spec_bytes(),
                seq![LF],
            );
        }
        Ok(utf8_text(out.as_slice()))
    }

    /// Takes note of how writing `line` to the durable log ended. Only a line
    /// that was written enters the window, so the window never holds a line
    /// that the durable log lacks.
    pub fn complete_append(&mut self, line: &str, written: bool) -> (r: Result<(), AppendError>)
        requires
            old(self).wf(),
        ensures
            final(self).wf(),
            !written ==> r == Err::<(), AppendError>(AppendError::WriteFailed) && final(self)@ == old(
                self,
            )@,
            written && terminate(line.spec_bytes()).len() > old(self)@.capacity ==> r == Err::<
                (),
                AppendError,
            >(AppendError::TooLong) && final(self)@ == old(self)@,
            written && terminate(line.spec_bytes()).len() <= old(self)@.capacity ==> r == Ok::<
                (),
                AppendError,
            >(()) && final(self)@ == old(self)@.append_line(terminate(line.spec_bytes())),
    {
        if !written {
            return Err(AppendError::WriteFailed);
        }
        if !line_fits(line.as_bytes(), self.window.capacity()) {
            return Err(AppendError::TooLong);
        }
        self.window.push(line);
        Ok(())
    }

    /// The lines in the window, oldest first, each without its line feed.
    pub fn snapshot_lines(&self) -> (r: Vec<String>)
        requires
            self.wf(),
        ensures
            text_bytes(r@) == split_lines(self@.content()),
    {
        self.window.lines()
    }

    /// The window itself.
    pub fn window(&self) -> (r: &CircularString)
        requires
            self.wf(),
        ensures
            r.wf(),
            r@ == self@,
    {
        &self.window
    }
}

/// The offset of the last space in `l`, or -1 when it has none.
pub open spec fn last_space(l: Seq<u8>) -> int
    decreases l.len(),
{
    if l.len() == 0 {
        -1
    } else if l.last() == SP {
        l.len() - 1
    } else {
        last_space(l.drop_last())
    }
}

/// The links that `lines` record: what follows the last space of each line
/// that has one.
pub open spec fn link_set(lines: Seq<Seq<u8>>) -> Set<Seq<u8>>
    decreases lines.len(),
{
    if lines.len() == 0 {
        Set::empty()
    } else {
        let l = lines.last();
        let rest = link_set(lines.drop_last());
        if last_space(l) >= 0 {
            rest.insert(l.skip(last_space(l) + 1))
        } else {
            rest
        }
    }
}

proof fn lemma_last_space_bounds(l: Seq<u8>)
    ensures
        -1 <= last_space(l) < l.len(),
        last_space(l) >= 0 ==> l[last_space(l)] == SP,
    decreases l.len(),
{
    if l.len() > 0 && l.last() != SP {
        lemma_last_space_bounds(l.drop_last());
    }
}

/// The offset of the last space of `bytes`, if it has one.
fn find_last_space(bytes: &[u8]) -> (r: Option<usize>)
    ensures
        r is None <==> last_space(bytes@) < 0,
        r matches Some(p) ==> p as int == last_space(bytes@),
{
    let mut j: usize = bytes.len();
    assert(bytes@.take(j as int) =~= bytes@);
    while j > 0 && bytes[j - 1] != SP
        invariant
            j <= bytes@.len(),
            last_space(bytes@) == last_space(bytes@.take(j as int)),
        decreases j,
    {
        assert(bytes@.take(j as int).drop_last() =~= bytes@.take(j - 1));
        j = j - 1;
    }
    if j == 0 {
        None
    } else {
        Some(j - 1)
    }
}

/// The distinct links among the lines that `buf` holds: for each line with a
/// space, what follows its last space.
pub fn compute_link_stats(buf: &CircularString) -> (r: Vec<String>)
    requires
        buf.wf(),
    ensures
        text_bytes(r@).no_duplicates(),
        text_bytes(r@).to_set() == link_set(split_lines(buf@.content())),
{
    let lines = buf.lines();
    let ghost ls = text_bytes(lines@);
    let mut links: Vec<String> = Vec::new();
    let mut i: usize = 0;
    assert(text_bytes(links@) =~= Seq::<Seq<u8>>::empty());
    assert(ls.take(0) =~= Seq::<Seq<u8>>::empty());
    assert(text_bytes(links@).to_set() =~= Set::<Seq<u8>>::empty());
    while i < lines.len()
        invariant
            i <= lines@.len(),
            ls == text_bytes(lines@),
            text_bytes(links@).no_duplicates(),
            text_bytes(links@).to_set() == link_set(ls.take(i as int)),
        decreases lines.len() - i,
    {
        let bytes = lines[i].as_str().as_bytes();
        let ghost l = ls[i as int];
        assert(bytes@ == l);
        assert(ls.take(i + 1).drop_last() =~= ls.take(i as int));
        assert(ls.take(i + 1).last() == l);
        match find_last_space(bytes) {
            None => {},
            Some(p) => {
                proof {
                    lemma_last_space_bounds(l);
                    encode_utf8_valid_utf8(lines@[i as int]@);
                    lemma_utf8_split_at_ascii(l, p as int);
                    assert(l.subrange(p + 1, l.len() as int) =~= l.skip(p + 1));
                }
                let n = bytes.len();
                let link = utf8_text(&bytes[p + 1..n]);
                let ghost t = l.skip(p + 1);
                assert(encode_utf8(link@) == t);
                let mut k: usize = 0;
                let mut seen = false;
                while k < links.len()
                    invariant
                        k <= links@.len(),
                        encode_utf8(link@) == t,
                        seen ==> text_bytes(links@).contains(t),
                        !seen ==> forall|m: int| 0 <= m < k ==> text_bytes(links@)[m] != t,
                    decreases links.len() - k,
                {
                    if links[k] == link {
                        seen = true;
                        assert(text_bytes(links@)[k as int] == t);
                    } else {
                        proof {
                            encode_utf8_decode_utf8(links@[k as int]@);
                            encode_utf8_decode_utf8(link@);
                        }
                    }
                    k = k + 1;
                }
                let ghost before = text_bytes(links@);
                if !seen {
                    links.push(link);
                    let ghost after = text_bytes(links@);
                    assert(after =~= before.push(t));
                    assert forall|x: Seq<u8>| #[trigger]
                        after.contains(x) <==> (before.contains(x) || x == t) by {
                        if before.contains(x) {
                            let m = choose|m: int| 0 <= m < before.len() && before[m] == x;
                            assert(after[m] == x);
                        }
                        if x == t {
                            assert(after[before.len() as int] == t);
                        }
                        if after.contains(x) {
                            let m = choose|m: int| 0 <= m < after.len() && after[m] == x;
                            if m < before.len() {
                                assert(before[m] == x);
                            }
                        }
                    }
                    assert(after.to_set() =~= before.to_set().insert(t));
                } else {
                    assert(before.to_set().insert(t) =~= before.to_set());
                }
            },
        }
        i = i + 1;
    }
    assert(ls.take(lines@.len() as int) =~= ls);
    links
}

} // verus!
