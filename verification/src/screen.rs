//! Lines on a screen: a log that is capped, wrapped and anchored at the
//! bottom, and texts that fit a width.

use crate::text;
use crate::text::byte_len;
use crate::text::reach;
use vstd::prelude::*;

verus! {

/// How a line is shown.
#[derive(Clone, Copy, PartialEq, Eq, Structural, Debug)]
pub enum Style {
    /// The agent's answer.
    Plain,
    /// Actions, results, stats, system notes.
    Dim,
    /// The user's prompt.
    User,
    /// An action of a fleet's agent.
    Act,
    /// A result that failed.
    Failed,
}

/// Lines with their styles.
pub open spec fn styled(v: Seq<(Style, String)>) -> Seq<(Style, Seq<char>)> {
    v.map_values(|p: (Style, String)| (p.0, p.1@))
}

proof fn lemma_styled_push(v: Seq<(Style, String)>, p: (Style, String))
    ensures
        styled(v.push(p)) == styled(v).push((p.0, p.1@)),
{
    assert(styled(v.push(p)) =~= styled(v).push((p.0, p.1@)));
}

// ---------------------------------------------------------------------------
// The log
// ---------------------------------------------------------------------------

/// The last `cap` lines.
pub open spec fn last_lines(log: Seq<(Style, Seq<char>)>, cap: int) -> Seq<(Style, Seq<char>)> {
    if log.len() > cap {
        log.skip(log.len() - cap)
    } else {
        log
    }
}

/// Adds a line to a log and drops the oldest lines over the cap.
pub fn add_line(log: &mut Vec<(Style, String)>, style: Style, line: String, cap: usize)
    ensures
        styled(final(log)@) == last_lines(styled(old(log)@).push((style, line@)), cap as int),
{
    proof {
        lemma_styled_push(log@, (style, line));
    }
    log.push((style, line));
    let ghost all = styled(log@);
    let ghost mut gone: int = 0;
    assert(all.skip(0) =~= all);
    while log.len() > cap
        invariant
            0 <= gone,
            gone + log@.len() == all.len(),
            styled(log@) == all.skip(gone),
            gone > 0 ==> log@.len() >= cap,
        decreases log@.len(),
    {
        let ghost before = log@;
        log.remove(0);
        proof {
            assert(styled(log@) =~= styled(before).skip(1));
            assert(all.skip(gone).skip(1) =~= all.skip(gone + 1));
            gone = gone + 1;
        }
    }
}

// ---------------------------------------------------------------------------
// Wrapping
// ---------------------------------------------------------------------------

/// How many characters of a text go on one row: those that start within the
/// first `w` bytes. Without any width a row takes everything.
pub open spec fn row_len(s: Seq<char>, w: int) -> int {
    if w <= 0 || reach(s, w) <= 0 || reach(s, w) > s.len() {
        s.len() as int
    } else {
        reach(s, w)
    }
}

/// A text cut into rows.
pub open spec fn broken(s: Seq<char>, w: int) -> Seq<Seq<char>>
    decreases s.len(),
{
    if s.len() == 0 {
        Seq::empty()
    } else {
        seq![s.take(row_len(s, w))] + broken(s.skip(row_len(s, w)), w)
    }
}

/// The rows of a line; a line that fits has one, and so has an empty one.
pub open spec fn wrapped(s: Seq<char>, w: int) -> Seq<Seq<char>> {
    if byte_len(s) <= w {
        seq![s]
    } else {
        broken(s, w)
    }
}

/// The rows of a styled line.
pub open spec fn styled_rows(line: (Style, Seq<char>), w: int) -> Seq<(Style, Seq<char>)> {
    wrapped(line.1, w).map_values(|t: Seq<char>| (line.0, t))
}

/// The rows of the lines from `i` on.
pub open spec fn rows_from(log: Seq<(Style, Seq<char>)>, w: int, i: int) -> Seq<
    (Style, Seq<char>),
>
    decreases log.len() - i,
{
    if 0 <= i < log.len() {
        styled_rows(log[i], w) + rows_from(log, w, i + 1)
    } else {
        Seq::empty()
    }
}

/// What shows of some rows in a window of `h` rows whose bottom lies `scroll`
/// rows above the last one.
pub open spec fn window_of(rows: Seq<(Style, Seq<char>)>, scroll: int, h: int) -> Seq<
    (Style, Seq<char>),
> {
    let end = if scroll < rows.len() {
        rows.len() - scroll
    } else {
        0
    };
    let start = if h < end {
        end - h
    } else {
        0
    };
    rows.subrange(start, end)
}

/// What shows of a log.
pub open spec fn visible(log: Seq<(Style, Seq<char>)>, w: int, scroll: int, h: int) -> Seq<
    (Style, Seq<char>),
> {
    window_of(rows_from(log, w, 0), scroll, h)
}

/// Cuts a line into rows.
pub fn wrap(line: &str, w: usize) -> (r: Vec<String>)
    ensures
        text::texts(r@) == wrapped(line@, w as int),
{
    let mut r: Vec<String> = Vec::new();
    if text::bytes_in(line) <= w {
        let t = line.to_owned();
        r.push(t);
        assert(text::texts(r@) =~= seq![line@]);
        return r;
    }
    let mut rest = text::chars_of(line);
    assert(text::texts(r@) + broken(rest@, w as int) =~= broken(line@, w as int));
    while rest.len() > 0
        invariant
            text::texts(r@) + broken(rest@, w as int) == broken(line@, w as int),
        decreases rest@.len(),
    {
        let ghost s = rest@;
        let k: usize = if w == 0 {
            rest.len()
        } else {
            let n = text::reach_chars(&rest, w);
            if n == 0 {
                rest.len()
            } else {
                n
            }
        };
        assert(k == row_len(s, w as int));
        let piece = text::text_between(&rest, 0, k);
        assert(s.subrange(0, k as int) =~= s.take(k as int));
        let after = text::text_between(&rest, k, rest.len());
        assert(s.subrange(k as int, s.len() as int) =~= s.skip(k as int));
        proof {
            text::lemma_texts_push(r@, piece);
        }
        let ghost r0 = text::texts(r@);
        r.push(piece);
        rest = text::chars_of(&after);
        assert(text::texts(r@) + broken(rest@, w as int) =~= r0 + broken(s, w as int));
    }
    assert(broken(rest@, w as int) =~= Seq::<Seq<char>>::empty());
    assert(text::texts(r@) + broken(rest@, w as int) =~= text::texts(r@));
    r
}

/// The rows from `i` on are the end of all rows.
proof fn lemma_rows_end(log: Seq<(Style, Seq<char>)>, w: int, i: int)
    requires
        0 <= i <= log.len(),
    ensures
        ({
            let all = rows_from(log, w, 0);
            let end = rows_from(log, w, i);
            end.len() <= all.len() && all.skip(all.len() - end.len()) == end
        }),
    decreases i,
{
    let all = rows_from(log, w, 0);
    if i == 0 {
        assert(all.skip(0) =~= all);
    } else {
        lemma_rows_end(log, w, i - 1);
        let before = rows_from(log, w, i - 1);
        let end = rows_from(log, w, i);
        assert(before =~= styled_rows(log[i - 1], w) + end);
        assert(all.skip(all.len() - end.len()) =~= before.skip(before.len() - end.len()));
        assert(before.skip(before.len() - end.len()) =~= end);
    }
}

/// What shows of a log in a window, bottom-anchored.
pub fn visible_rows(log: &Vec<(Style, String)>, w: usize, scroll: usize, h: usize) -> (r: Vec<
    (Style, String),
>)
    ensures
        styled(r@) == visible(styled(log@), w as int, scroll as int, h as int),
{
    let ghost all = styled(log@);
    // The rows from the bottom up.
    let mut acc: Vec<(Style, String)> = Vec::new();
    let mut i: usize = log.len();
    while i > 0 && (acc.len() < scroll || acc.len() - scroll < h)
        invariant
            i <= log@.len(),
            all == styled(log@),
            acc@.len() == rows_from(all, w as int, i as int).len(),
            forall|k: int|
                0 <= k < acc@.len() ==> ((#[trigger] acc@[k]).0, acc@[k].1@) == rows_from(
                    all,
                    w as int,
                    i as int,
                )[acc@.len() - 1 - k],
        decreases i,
    {
        let ghost below = rows_from(all, w as int, i as int);
        let ghost acc0 = acc@;
        i = i - 1;
        let style = log[i].0;
        let mut pieces = wrap(&log[i].1, w);
        let ghost parts = text::texts(pieces@);
        let ghost here = styled_rows(all[i as int], w as int);
        proof {
            assert(all[i as int] == (log@[i as int].0, log@[i as int].1@));
            assert(here.len() == pieces@.len());
            assert(rows_from(all, w as int, i as int) =~= here + below);
        }
        while pieces.len() > 0
            invariant
                pieces@.len() <= parts.len(),
                here.len() == parts.len(),
                acc0.len() == below.len(),
                forall|k: int|
                    0 <= k < acc0.len() ==> ((#[trigger] acc0[k]).0, acc0[k].1@) == below[acc0.len()
                        - 1 - k],
                forall|k: int| 0 <= k < parts.len() ==> here[k] == (style, #[trigger] parts[k]),
                text::texts(pieces@) == parts.take(pieces@.len() as int),
                acc@.len() == acc0.len() + parts.len() - pieces@.len(),
                acc@.take(acc0.len() as int) == acc0,
                forall|k: int|
                    acc0.len() <= k < acc@.len() ==> ((#[trigger] acc@[k]).0, acc@[k].1@)
                        == here[acc0.len() + parts.len() - 1 - k],
            decreases pieces@.len(),
        {
            let ghost before = pieces@;
            let ghost acc1 = acc@;
            if let Some(t) = pieces.pop() {
                proof {
                    let last = before.len() - 1;
                    assert(text::texts(before)[last] == t@);
                    assert(parts[last] == t@);
                    assert(text::texts(pieces@) =~= parts.take(pieces@.len() as int)) by {
                        assert forall|k: int| 0 <= k < pieces@.len() implies text::texts(
                            pieces@,
                        )[k] == parts[k] by {
                            assert(text::texts(before)[k] == parts.take(before.len() as int)[k]);
                        }
                    }
                }
                acc.push((style, t));
                proof {
                    assert(acc@.take(acc0.len() as int) =~= acc1.take(acc0.len() as int));
                }
            }
        }
        proof {
            let total = here + below;
            assert forall|k: int| 0 <= k < acc@.len() implies ((#[trigger] acc@[k]).0, acc@[k].1@)
                == total[acc@.len() - 1 - k] by {
                if k < acc0.len() {
                    assert(acc@[k] == acc@.take(acc0.len() as int)[k]);
                    assert(total[acc@.len() - 1 - k] == below[acc0.len() - 1 - k]);
                } else {
                    assert(total[acc@.len() - 1 - k] == here[acc@.len() - 1 - k]);
                }
            }
        }
    }
    let ghost end = rows_from(all, w as int, i as int);
    proof {
        lemma_rows_end(all, w as int, i as int);
    }
    let hidden: usize = if scroll < acc.len() {
        scroll
    } else {
        acc.len()
    };
    let shown: usize = if h < acc.len() - hidden {
        h
    } else {
        acc.len() - hidden
    };
    let ghost rows = rows_from(all, w as int, 0);
    let ghost want = visible(all, w as int, scroll as int, h as int);
    proof {
        if i > 0 {
            assert(end.len() >= scroll + h);
        }
        assert(want.len() == shown);
        assert forall|j: int| 0 <= j < shown implies want[j] == end[end.len() - hidden - shown + j] by {
            let skip = rows.len() - end.len();
            assert(rows.skip(skip)[end.len() - hidden - shown + j] == rows[skip + end.len() - hidden
                - shown + j]);
        }
    }
    let mut r: Vec<(Style, String)> = Vec::new();
    let mut j: usize = 0;
    while j < shown
        invariant
            j <= shown,
            hidden + shown <= acc.len(),
            acc@.len() == end.len(),
            want.len() == shown,
            forall|k: int|
                0 <= k < acc@.len() ==> ((#[trigger] acc@[k]).0, acc@[k].1@) == end[acc@.len() - 1
                    - k],
            forall|k: int|
                0 <= k < shown ==> #[trigger] want[k] == end[end.len() - hidden - shown + k],
            styled(r@) == want.take(j as int),
        decreases shown - j,
    {
        let at: usize = hidden + shown - 1 - j;
        let p = (acc[at].0, acc[at].1.clone());
        proof {
            lemma_styled_push(r@, p);
            assert(want[j as int] == end[end.len() - hidden - shown + j]);
            assert((acc@[at as int].0, acc@[at as int].1@) == end[acc@.len() - 1 - at]);
            assert(want.take(j + 1) =~= want.take(j as int).push(want[j as int]));
        }
        r.push(p);
        j = j + 1;
    }
    assert(want.take(shown as int) =~= want);
    r
}

// ---------------------------------------------------------------------------
// Texts that fit
// ---------------------------------------------------------------------------

/// The first `w` characters.
pub open spec fn first_chars(s: Seq<char>, w: int) -> Seq<char> {
    if w < s.len() {
        s.take(w)
    } else {
        s
    }
}

/// The end of a text that is too long for a line of `w` characters with a
/// cursor.
pub open spec fn last_chars(s: Seq<char>, w: int) -> Seq<char> {
    if s.len() >= w {
        s.skip(s.len() - w + 1)
    } else {
        s
    }
}

/// `n` times `c`.
pub open spec fn run_of(c: char, n: int) -> Seq<char> {
    Seq::new(
        if n > 0 {
            n as nat
        } else {
            0
        },
        |i: int| c,
    )
}

/// A text filled up with spaces to `w` characters.
pub open spec fn padded(s: Seq<char>, w: int) -> Seq<char> {
    s + run_of(' ', w - s.len())
}

pub fn take_chars(s: &str, w: usize) -> (r: String)
    ensures
        r@ == first_chars(s@, w as int),
{
    let v = text::chars_of(s);
    if w < v.len() {
        assert(v@.subrange(0, w as int) =~= s@.take(w as int));
        text::text_between(&v, 0, w)
    } else {
        s.to_owned()
    }
}

pub fn end_chars(s: &str, w: usize) -> (r: String)
    requires
        w > 0,
    ensures
        r@ == last_chars(s@, w as int),
{
    let v = text::chars_of(s);
    if v.len() >= w {
        let from: usize = v.len() - w + 1;
        assert(v@.subrange(from as int, v@.len() as int) =~= s@.skip(s@.len() - w + 1));
        text::text_between(&v, from, v.len())
    } else {
        s.to_owned()
    }
}

pub fn repeated(c: char, n: usize) -> (r: String)
    ensures
        r@ == run_of(c, n as int),
{
    let mut r = String::new();
    let mut i: usize = 0;
    assert(r@ =~= run_of(c, 0));
    while i < n
        invariant
            i <= n,
            r@ == run_of(c, i as int),
        decreases n - i,
    {
        r.push(c);
        assert(r@ =~= run_of(c, i + 1));
        i = i + 1;
    }
    r
}

pub fn pad(s: &str, w: usize) -> (r: String)
    ensures
        r@ == padded(s@, w as int),
{
    let v = text::chars_of(s);
    let mut r = s.to_owned();
    if v.len() < w {
        let fill = repeated(' ', w - v.len());
        r.append(&fill);
    } else {
        assert(r@ =~= padded(s@, w as int));
    }
    r
}

// ---------------------------------------------------------------------------
// Frames
// ---------------------------------------------------------------------------

/// What stands on a row of the screen.
pub struct Placed {
    pub row: usize,
    pub style: Style,
    pub text: String,
}

/// Texts with their rows and styles.
pub open spec fn placed(v: Seq<Placed>) -> Seq<(int, Style, Seq<char>)> {
    v.map_values(|p: Placed| (p.row as int, p.style, p.text@))
}

/// Some rows, placed one below the other from row `at` on.
pub open spec fn stacked(rows: Seq<(Style, Seq<char>)>, at: int) -> Seq<(int, Style, Seq<char>)> {
    Seq::new(rows.len(), |i: int| (at + i, rows[i].0, rows[i].1))
}

/// Places one text.
pub fn put_at(v: &mut Vec<Placed>, row: usize, style: Style, text: String)
    ensures
        placed(final(v)@) == placed(old(v)@).push((row as int, style, text@)),
{
    let ghost v0 = v@;
    v.push(Placed { row, style, text });
    assert(placed(v@) =~= placed(v0).push((row as int, style, text@)));
}

/// Places rows one below the other.
pub fn stack(v: &mut Vec<Placed>, rows: Vec<(Style, String)>, at: usize)
    requires
        at + rows@.len() <= usize::MAX,
    ensures
        placed(final(v)@) == placed(old(v)@) + stacked(styled(rows@), at as int),
{
    let ghost v0 = placed(v@);
    let ghost all = stacked(styled(rows@), at as int);
    let mut i: usize = 0;
    assert(v0 + all.take(0) =~= v0);
    while i < rows.len()
        invariant
            i <= rows@.len(),
            at + rows@.len() <= usize::MAX,
            all == stacked(styled(rows@), at as int),
            placed(v@) == v0 + all.take(i as int),
        decreases rows@.len() - i,
    {
        assert(all[i as int] == (at + i, rows@[i as int].0, rows@[i as int].1@));
        put_at(v, at + i, rows[i].0, rows[i].1.clone());
        assert(v0 + all.take(i + 1) =~= (v0 + all.take(i as int)).push(all[i as int]));
        i = i + 1;
    }
    assert(all.take(all.len() as int) =~= all);
}

// ---------------------------------------------------------------------------
// Laws
// ---------------------------------------------------------------------------

/// Rows put together again.
pub open spec fn glued(rows: Seq<Seq<char>>) -> Seq<char>
    decreases rows.len(),
{
    if rows.len() == 0 {
        Seq::empty()
    } else {
        rows[0] + glued(rows.skip(1))
    }
}

proof fn lemma_broken_glued(s: Seq<char>, w: int)
    ensures
        glued(broken(s, w)) == s,
    decreases s.len(),
{
    if s.len() > 0 {
        let k = row_len(s, w);
        let rest = s.skip(k);
        lemma_broken_glued(rest, w);
        let rows = broken(s, w);
        assert(rows.skip(1) =~= broken(rest, w));
        assert(s =~= s.take(k) + rest);
    }
}

/// Wrapping loses nothing: the rows of a line are the line.
pub proof fn wrapping_loses_nothing(s: Seq<char>, w: int)
    ensures
        glued(wrapped(s, w)) == s,
{
    lemma_broken_glued(s, w);
    if byte_len(s) <= w {
        let rows = seq![s];
        assert(rows.skip(1) =~= Seq::<Seq<char>>::empty());
        assert(s + glued(rows.skip(1)) =~= s);
    }
}

/// However far back a window is scrolled, it never shows more rows than it
/// has, and at the bottom it shows the newest ones.
pub proof fn windows_fit(rows: Seq<(Style, Seq<char>)>, scroll: int, h: int)
    requires
        0 <= scroll,
        0 <= h,
    ensures
        window_of(rows, scroll, h).len() <= h,
        rows.len() > 0 && h > 0 ==> window_of(rows, 0, h).last() == rows.last(),
{
}

proof fn lemma_narrow(s: Seq<char>)
    requires
        forall|i: int| 0 <= i < s.len() ==> (#[trigger] s[i] as u32) < 0x80,
    ensures
        byte_len(s) == s.len(),
    decreases s.len(),
{
    if s.len() > 0 {
        let rest = s.drop_last();
        assert forall|i: int| 0 <= i < rest.len() implies (#[trigger] rest[i] as u32) < 0x80 by {
            assert(rest[i] == s[i]);
        }
        lemma_narrow(rest);
        assert((s[s.len() - 1] as u32) < 0x80);
    }
}

proof fn lemma_narrow_reach(s: Seq<char>, k: int, w: int)
    requires
        forall|i: int| 0 <= i < s.len() ==> (#[trigger] s[i] as u32) < 0x80,
        0 <= k <= w,
        k <= s.len(),
    ensures
        text::reach_from(s, k, w) == (if w < s.len() {
            w
        } else {
            s.len() as int
        }),
    decreases w - k,
{
    let part = s.take(k);
    assert forall|i: int| 0 <= i < part.len() implies (#[trigger] part[i] as u32) < 0x80 by {
        assert(part[i] == s[i]);
    }
    lemma_narrow(part);
    if k < w && k < s.len() {
        lemma_narrow_reach(s, k + 1, w);
    }
}

proof fn lemma_narrow_rows(s: Seq<char>, w: int)
    requires
        w > 0,
        forall|i: int| 0 <= i < s.len() ==> (#[trigger] s[i] as u32) < 0x80,
    ensures
        forall|i: int| 0 <= i < broken(s, w).len() ==> (#[trigger] broken(s, w)[i]).len() <= w,
        forall|i: int|
            0 <= i < broken(s, w).len() - 1 ==> (#[trigger] broken(s, w)[i]).len() == w,
        s.len() > 0 ==> broken(s, w).len() > 0,
    decreases s.len(),
{
    if s.len() > 0 {
        lemma_narrow_reach(s, 0, w);
        let k = row_len(s, w);
        let rest = s.skip(k);
        assert forall|i: int| 0 <= i < rest.len() implies (#[trigger] rest[i] as u32) < 0x80 by {
            assert(rest[i] == s[k + i]);
        }
        lemma_narrow_rows(rest, w);
        let rows = broken(s, w);
        let tail = broken(rest, w);
        assert(rows[0] == s.take(k));
        assert forall|i: int| 0 <= i < rows.len() implies (#[trigger] rows[i]).len() <= w by {
            if i > 0 {
                assert(rows[i] == tail[i - 1]);
            }
        }
        assert forall|i: int| 0 <= i < rows.len() - 1 implies (#[trigger] rows[i]).len() == w by {
            if i > 0 {
                assert(rows[i] == tail[i - 1]);
            } else if rest.len() == 0 {
                assert(tail.len() == 0);
            }
        }
    }
}

/// ASCII text is cut into rows of the width given, all full but the last; a line
/// that fits is one row.
pub proof fn rows_fill_the_width(s: Seq<char>, w: int, i: int)
    requires
        w > 0,
        forall|k: int| 0 <= k < s.len() ==> (#[trigger] s[k] as u32) < 0x80,
        0 <= i < wrapped(s, w).len(),
    ensures
        wrapped(s, w)[i].len() <= w,
        i < wrapped(s, w).len() - 1 ==> wrapped(s, w)[i].len() == w,
        s.len() <= w ==> wrapped(s, w) == seq![s],
{
    lemma_narrow(s);
    lemma_narrow_rows(s, w);
}

/// A log keeps its newest lines: the line that came is the last, as many stay as
/// the cap allows, and none goes before the cap is reached.
pub proof fn a_log_keeps_its_newest(
    log: Seq<(Style, Seq<char>)>,
    line: (Style, Seq<char>),
    cap: int,
    i: int,
)
    requires
        cap > 0,
    ensures
        ({
            let after = last_lines(log.push(line), cap);
            &&& after.last() == line
            &&& log.len() < cap ==> after == log.push(line)
            &&& log.len() >= cap ==> after.len() == cap
            &&& log.len() >= cap && 0 <= i < cap - 1 ==> after[i] == log[log.len() - cap + 1 + i]
        }),
{
}

proof fn lemma_rows_push(log: Seq<(Style, Seq<char>)>, line: (Style, Seq<char>), w: int, i: int)
    requires
        0 <= i <= log.len(),
    ensures
        rows_from(log.push(line), w, i) == rows_from(log, w, i) + styled_rows(line, w),
    decreases log.len() - i,
{
    let all = log.push(line);
    if i < log.len() {
        lemma_rows_push(log, line, w, i + 1);
        assert(all[i] == log[i]);
        assert(rows_from(all, w, i) =~= rows_from(log, w, i) + styled_rows(line, w));
    } else {
        assert(rows_from(all, w, i + 1) =~= Seq::<(Style, Seq<char>)>::empty());
        assert(rows_from(all, w, i) =~= styled_rows(line, w));
        assert(rows_from(log, w, i) + styled_rows(line, w) =~= styled_rows(line, w));
    }
}

/// A line that comes is shown below the others: the rows before it stay, and its
/// own follow in its style.
pub proof fn lines_are_shown_in_order(
    log: Seq<(Style, Seq<char>)>,
    line: (Style, Seq<char>),
    w: int,
    i: int,
)
    ensures
        rows_from(log.push(line), w, 0) == rows_from(log, w, 0) + styled_rows(line, w),
        styled_rows(line, w).len() == wrapped(line.1, w).len(),
        0 <= i < wrapped(line.1, w).len() ==> styled_rows(line, w)[i] == (
            line.0,
            wrapped(line.1, w)[i],
        ),
{
    lemma_rows_push(log, line, w, 0);
}

/// Scrolled back by some rows, a window shows the rows just above those, as many
/// as it has room for.
pub proof fn a_window_shows_what_lies_above(
    above: Seq<(Style, Seq<char>)>,
    shown: Seq<(Style, Seq<char>)>,
    below: Seq<(Style, Seq<char>)>,
)
    ensures
        window_of(above + shown + below, below.len() as int, shown.len() as int) == shown,
        window_of(shown + below, below.len() as int, shown.len() + 1int) == shown,
{
    let all = above + shown + below;
    assert(window_of(all, below.len() as int, shown.len() as int) =~= shown);
    assert(window_of(shown + below, below.len() as int, shown.len() + 1int) =~= shown);
}

/// A text is cut or filled to the room it has: its first characters, its last ones
/// with room for a cursor, or the whole of it and spaces.
pub proof fn texts_are_fitted(a: Seq<char>, b: Seq<char>, w: int)
    ensures
        first_chars(a + b, a.len() as int) == a,
        a.len() <= w ==> first_chars(a, w) == a,
        b.len() < w && (a.len() == 0 || b.len() == w - 1) ==> last_chars(a + b, w) == b,
        a.len() <= w ==> padded(a, w).len() == w && padded(a, w).take(a.len() as int) == a
            && forall|i: int| a.len() <= i < w ==> padded(a, w)[i] == ' ',
        a.len() > w ==> padded(a, w) == a,
{
    assert((a + b).take(a.len() as int) =~= a);
    if b.len() < w && (a.len() == 0 || b.len() == w - 1) {
        assert(last_chars(a + b, w) =~= b);
    }
    assert(b.len() == 0 ==> a + b =~= a);
    assert(first_chars(a + b, a.len() as int) =~= a);
    if a.len() <= w {
        assert(padded(a, w).take(a.len() as int) =~= a);
    } else {
        assert(padded(a, w) =~= a);
    }
}

} // verus!
