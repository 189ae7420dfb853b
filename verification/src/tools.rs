//! The workspace and what its tools show.

use crate::outline;
use crate::outline::lang_of;
use crate::outline::sigs;
use crate::pattern;
use crate::pattern::regex_error_text;
use crate::pattern::regex_first;
use crate::pattern::regex_matches;
use crate::pattern::regex_of;
use crate::shelld::b64_of;
use crate::text;
use crate::text::begins;
use crate::text::byte_len;
use crate::text::cut;
use crate::text::decimal;
use crate::text::ends;
use crate::text::fit;
use crate::text::joined;
use crate::text::lines_of;
use crate::text::lowered;
use crate::text::opt_text;
use crate::text::pairs;
use crate::text::parsed_upto;
use crate::text::pieces_of;
use crate::text::reach;
use crate::text::signed_decimal;
use crate::text::stripped;
use crate::text::swapped;
use crate::text::texts;
use crate::text::trimmed;
use crate::text::trimmed_end;
use base64::Engine;
use vstd::prelude::*;

verus! {

/// `s` where it takes at most `max` bytes. A longer text is cut after the last
/// whole character within `max` bytes, with a note of the bytes left out.
pub open spec fn clipped(s: Seq<char>, max: int) -> Seq<char> {
    if byte_len(s) <= max {
        s
    } else {
        let kept = s.take(fit(s, max));
        kept + "…(+"@ + decimal((byte_len(s) - byte_len(kept)) as nat) + "ch)"@
    }
}

/// Truncation at a character boundary, with an ellipsis note.
pub fn clip(s: &str, max: usize) -> (r: String)
    ensures
        r@ == clipped(s@, max as int),
{
    let total = text::bytes_in(s);
    if total <= max {
        return s.to_owned();
    }
    let v = text::chars_of(s);
    let (k, n) = text::fit_chars(&v, max);
    let mut r = text::text_between(&v, 0, k);
    assert(r@ =~= s@.take(k as int));
    r.append("…(+");
    let left = text::dec((total - n) as u64);
    r.append(&left);
    r.append("ch)");
    r
}

/// What `clip` keeps of a text that is too long is its start, within the
/// limit, and as long as whole characters allow.
pub proof fn clip_keeps_the_longest_start(s: Seq<char>, max: int)
    requires
        0 <= max < byte_len(s),
    ensures
        0 <= fit(s, max) < s.len(),
        s.take(fit(s, max)).is_prefix_of(clipped(s, max)),
        byte_len(s.take(fit(s, max))) <= max,
        forall|k: int| 0 <= k <= s.len() && byte_len(#[trigger] s.take(k)) <= max ==> k <= fit(s, max),
{
    text::lemma_fit(s, max);
    assert(s.take(s.len() as int) =~= s);
}

// ---------------------------------------------------------------------------
// Shell output
// ---------------------------------------------------------------------------

/// One line with every run of spaces and tabs cut to at most two spaces, and
/// the length of the run at its end.
pub open spec fn squeezed_line(s: Seq<char>) -> (Seq<char>, nat)
    decreases s.len(),
{
    if s.len() == 0 {
        (Seq::empty(), 0)
    } else {
        let (out, run) = squeezed_line(s.drop_last());
        let c = s.last();
        if c == ' ' || c == '\t' {
            (
                if run < 2 {
                    out.push(' ')
                } else {
                    out
                },
                run + 1,
            )
        } else {
            (out.push(c), 0)
        }
    }
}

/// The lines of a text, squeezed.
pub open spec fn squeezed_lines(lines: Seq<Seq<char>>) -> Seq<Seq<char>> {
    lines.map_values(|l: Seq<char>| squeezed_line(trimmed_end(l)).0)
}

/// A text with its alignment padding collapsed, line by line.
pub open spec fn squeezed(s: Seq<char>) -> Seq<char> {
    joined(squeezed_lines(lines_of(s)), "\n"@)
}

fn squeeze_line(line: &str) -> (r: String)
    ensures
        r@ == squeezed_line(line@).0,
{
    let v = text::chars_of(line);
    let mut out = String::new();
    let mut run: usize = 0;
    let mut i: usize = 0;
    assert(line@.take(0) =~= Seq::<char>::empty());
    while i < v.len()
        invariant
            run <= i <= v@.len(),
            v@ == line@,
            out@ == squeezed_line(line@.take(i as int)).0,
            run == squeezed_line(line@.take(i as int)).1,
        decreases v@.len() - i,
    {
        proof {
            assert(line@.take(i + 1).drop_last() =~= line@.take(i as int));
            assert(line@.take(i + 1).last() == line@[i as int]);
        }
        let c = v[i];
        if c == ' ' || c == '\t' {
            if run < 2 {
                out.push(' ');
            }
            run = run + 1;
        } else {
            out.push(c);
            run = 0;
        }
        i = i + 1;
    }
    assert(line@.take(line@.len() as int) =~= line@);
    out
}

/// Collapses column-alignment padding: runs of white space are token waste and
/// tip quantized models into repetition.
pub fn squeeze_spaces(s: &str) -> (r: String)
    ensures
        r@ == squeezed(s@),
{
    let lines = text::lines(s);
    let mut out: Vec<String> = Vec::new();
    let mut i: usize = 0;
    while i < lines.len()
        invariant
            i <= lines@.len(),
            texts(lines@) == lines_of(s@),
            texts(out@) == squeezed_lines(lines_of(s@)).take(i as int),
        decreases lines@.len() - i,
    {
        let line = squeeze_line(&text::trim_end(&lines[i]));
        let ghost out0 = out@;
        out.push(line);
        proof {
            assert(texts(lines@)[i as int] == lines@[i as int]@);
            text::lemma_texts_push(out0, line);
            assert(squeezed_lines(lines_of(s@)).take(i + 1) =~= squeezed_lines(lines_of(s@)).take(
                i as int,
            ).push(line@));
        }
        i = i + 1;
    }
    assert(squeezed_lines(lines_of(s@)).take(lines@.len() as int) =~= squeezed_lines(lines_of(s@)));
    text::join(&out, "\n")
}

/// A squeezed line holds no tab and never three spaces in a row.
pub proof fn squeezing_leaves_no_padding(s: Seq<char>)
    ensures
        !squeezed_line(s).0.contains('\t'),
        forall|i: int|
            0 <= i < squeezed_line(s).0.len() - 2 ==> !(#[trigger] squeezed_line(s).0[i] == ' '
                && squeezed_line(s).0[i + 1] == ' ' && squeezed_line(s).0[i + 2] == ' '),
    decreases s.len(),
{
    lemma_squeezed_tail(s);
    if s.len() > 0 {
        squeezing_leaves_no_padding(s.drop_last());
        lemma_squeezed_tail(s.drop_last());
        let before = squeezed_line(s.drop_last()).0;
        let now = squeezed_line(s).0;
        assert forall|i: int| 0 <= i < now.len() implies now[i] != '\t' by {
            if i < before.len() {
                assert(now[i] == before[i]);
            }
        }
        assert forall|i: int| 0 <= i < now.len() - 2 implies !(#[trigger] now[i] == ' ' && now[i + 1]
            == ' ' && now[i + 2] == ' ') by {
            if i < before.len() - 2 {
                assert(before[i] == now[i]);
            }
        }
    }
}

proof fn lemma_squeezed_tail(s: Seq<char>)
    ensures
        ({
            let (out, run) = squeezed_line(s);
            let shown: int = if run < 2 { run as int } else { 2 };
            &&& shown <= out.len()
            &&& out.len() > shown ==> out[out.len() - shown - 1] != ' '
            &&& forall|k: int| out.len() - shown <= k < out.len() ==> out[k] == ' '
        }),
    decreases s.len(),
{
    if s.len() > 0 {
        lemma_squeezed_tail(s.drop_last());
    }
}

proof fn lemma_squeezed_again(s: Seq<char>)
    ensures
        ({
            let (out, run) = squeezed_line(s);
            squeezed_line(out) == (out, if run < 2 {
                run
            } else {
                2
            })
        }),
    decreases s.len(),
{
    if s.len() > 0 {
        lemma_squeezed_again(s.drop_last());
        let (out, run) = squeezed_line(s.drop_last());
        let c = s.last();
        if c == ' ' || c == '\t' {
            assert(out.push(' ').drop_last() =~= out);
        } else {
            assert(out.push(c).drop_last() =~= out);
        }
    }
}

proof fn lemma_squeezed_words(s: Seq<char>)
    ensures
        text::unspaced(squeezed_line(s).0) == text::unspaced(s),
        !s.contains('\n') ==> !squeezed_line(s).0.contains('\n'),
    decreases s.len(),
{
    if s.len() > 0 {
        lemma_squeezed_words(s.drop_last());
        let (out, run) = squeezed_line(s.drop_last());
        let c = s.last();
        assert(out.push(' ').drop_last() =~= out);
        assert(out.push(c).drop_last() =~= out);
        if !s.contains('\n') {
            assert forall|i: int| 0 <= i < s.len() - 1 implies s.drop_last()[i] != '\n' by {
                assert(s.drop_last()[i] == s[i]);
            }
            assert(!s.drop_last().contains('\n'));
            assert(s[s.len() - 1] != '\n');
        }
    }
}

/// What squeezing does to one line: no white space is left at its end, and the
/// rest of its characters stay, in order.
proof fn lemma_squeezed_line(line: Seq<char>)
    requires
        !line.contains('\n'),
    ensures
        ({
            let r = squeezed_line(trimmed_end(line)).0;
            &&& text::plain_line(r)
            &&& trimmed_end(r) == r
            &&& text::unspaced(r) == text::unspaced(line)
            &&& squeezed_line(trimmed_end(r)).0 == r
            &&& trimmed_end(line).len() > 0 ==> r.len() > 0
        }),
{
    let t = trimmed_end(line);
    text::lemma_trimmed_end(line);
    text::lemma_unspaced_take(line, t.len() as int);
    assert forall|i: int| 0 <= i < t.len() implies t[i] != '\n' by {
        assert(t[i] == line[i]);
    }
    lemma_squeezed_words(t);
    lemma_squeezed_again(t);
    text::lemma_trimmed_end(squeezed_line(t).0);
}

/// Squeezing keeps the lines of a text: as many, none with white space at its
/// end, each with the characters it had but for white space. Squeezing again
/// changes nothing.
pub proof fn squeezing_keeps_the_lines(s: Seq<char>)
    requires
        trimmed_end(s) == s,
    ensures
        lines_of(squeezed(s)) == squeezed_lines(lines_of(s)),
        lines_of(squeezed(s)).len() == lines_of(s).len(),
        forall|k: int|
            0 <= k < lines_of(s).len() ==> {
                let line = #[trigger] lines_of(squeezed(s))[k];
                &&& trimmed_end(line) == line
                &&& text::unspaced(line) == text::unspaced(lines_of(s)[k])
                &&& !line.contains('\t')
                &&& forall|i: int|
                    0 <= i < line.len() - 2 ==> !(#[trigger] line[i] == ' ' && line[i + 1] == ' '
                        && line[i + 2] == ' ')
            },
        squeezed(squeezed(s)) == squeezed(s),
{
    let lines = lines_of(s);
    let now = squeezed_lines(lines);
    text::lemma_lines_hold_no_ends(s, 0);
    assert forall|k: int| 0 <= k < lines.len() implies text::plain_line(#[trigger] now[k])
        && trimmed_end(now[k]) == now[k] && text::unspaced(now[k]) == text::unspaced(lines[k])
        && squeezed_line(trimmed_end(now[k])).0 == now[k] by {
        lemma_squeezed_line(lines[k]);
    }
    if s.len() > 0 {
        text::lemma_trimmed_end(s);
        assert(!text::is_space(s.last()));
        text::lemma_last_line(s, 0);
        let last = lines.last();
        text::lemma_trimmed_end(last);
        lemma_squeezed_line(last);
        assert(now.last() == squeezed_line(trimmed_end(last)).0);
    }
    text::open_lines_read_back(now);
    assert forall|k: int| 0 <= k < lines.len() implies {
        let line = #[trigger] now[k];
        &&& !line.contains('\t')
        &&& forall|i: int|
            0 <= i < line.len() - 2 ==> !(#[trigger] line[i] == ' ' && line[i + 1] == ' ' && line[i
                + 2] == ' ')
    } by {
        squeezing_leaves_no_padding(trimmed_end(lines[k]));
    }
    assert(squeezed_lines(now) =~= now);
}

/// What a shell command's output, errors and exit code read as.
pub open spec fn shell_text(out: Seq<char>, err: Seq<char>, code: int) -> Seq<char> {
    let both = if err.len() == 0 {
        out
    } else if out.len() > 0 && out.last() != '\n' {
        out + "\n"@ + err
    } else {
        out + err
    };
    let body = squeezed(trimmed_end(both));
    if code == 0 {
        if body.len() == 0 {
            "ok"@
        } else {
            "ok\n"@ + body
        }
    } else {
        "exit "@ + signed_decimal(code) + "\n"@ + body
    }
}

/// Merges a finished command's stdout and stderr and reports its exit code.
pub fn shell_report(out: &str, err: &str, code: i32) -> (r: String)
    ensures
        r@ == shell_text(out@, err@, code as int),
{
    let mut both = out.to_owned();
    if !text::empty(err) {
        proof {
            reveal_strlit("\n");
            assert("\n"@ =~= seq!['\n']);
            if out@.len() > 0 {
                assert(ends(out@, "\n"@) == (out@.last() == '\n')) by {
                    let tail = out@.subrange(out@.len() - 1, out@.len() as int);
                    assert(tail =~= seq![out@.last()]);
                    assert(tail[0] == out@.last());
                }
            }
        }
        if !text::empty(out) && !text::ends_with(out, "\n") {
            both.append("\n");
        }
        both.append(err);
    }
    let body = squeeze_spaces(&text::trim_end(&both));
    if code == 0 {
        if text::empty(&body) {
            "ok".to_string()
        } else {
            let mut r = "ok\n".to_string();
            r.append(&body);
            r
        }
    } else {
        let mut r = "exit ".to_string();
        let c = text::dec_i32(code);
        r.append(&c);
        r.append("\n");
        r.append(&body);
        r
    }
}

/// A command reads as successful exactly when its exit code is zero.
pub proof fn ok_means_exit_zero(out: Seq<char>, err: Seq<char>, code: int)
    ensures
        begins(shell_text(out, err, code), "ok"@) <==> code == 0,
{
    reveal_strlit("ok");
    reveal_strlit("ok\n");
    reveal_strlit("exit ");
    let t = shell_text(out, err, code);
    if code == 0 {
        assert(t.subrange(0, 2) =~= "ok"@);
    } else {
        assert(t[0] == 'e');
        if begins(t, "ok"@) {
            assert(t.subrange(0, 2)[0] == 'o');
        }
    }
}

/// A shell report loses nothing but white space: after the word on how the
/// command ended, all that it printed, and then all that it complained.
pub proof fn a_report_holds_both_streams(out: Seq<char>, err: Seq<char>, code: int)
    ensures
        text::unspaced(shell_text(out, err, code)) == text::unspaced(
            if code == 0 {
                "ok"@
            } else {
                "exit "@ + signed_decimal(code)
            },
        ) + text::unspaced(out) + text::unspaced(err),
{
    reveal_strlit("\n");
    reveal_strlit("ok");
    reveal_strlit("ok\n");
    assert("\n"@ =~= seq!['\n']);
    let t = shell_text(out, err, code);
    let head = if code == 0 {
        "ok"@
    } else {
        "exit "@ + signed_decimal(code)
    };
    let both = if err.len() == 0 {
        out
    } else if out.len() > 0 && out.last() != '\n' {
        out + "\n"@ + err
    } else {
        out + err
    };
    lemma_line_end_is_space();
    text::lemma_unspaced_add(out, "\n"@);
    text::lemma_unspaced_add(out + "\n"@, err);
    text::lemma_unspaced_add(out, err);
    assert(text::unspaced(out) + text::unspaced("\n"@) =~= text::unspaced(out));
    assert(text::unspaced(out) + text::unspaced(err) =~= text::unspaced(both)) by {
        if err.len() == 0 {
            assert(out + err =~= out);
        }
    }
    let whole = trimmed_end(both);
    text::lemma_trimmed_end(both);
    text::lemma_unspaced_take(both, whole.len() as int);
    let body = squeezed(whole);
    lemma_squeezed_keeps_all(whole);
    text::lemma_unspaced_add(head, "\n"@);
    text::lemma_unspaced_add(head + "\n"@, body);
    assert(text::unspaced(head) + text::unspaced("\n"@) =~= text::unspaced(head));
    assert("ok\n"@ =~= "ok"@ + "\n"@);
    if code == 0 && body.len() == 0 {
        assert(text::unspaced(head) + text::unspaced(body) =~= text::unspaced(head));
    } else {
        assert(t =~= head + "\n"@ + body);
    }
    assert(text::unspaced(t) =~= text::unspaced(head) + text::unspaced(out) + text::unspaced(err));
}

proof fn lemma_line_end_is_space()
    ensures
        text::unspaced("\n"@) == Seq::<char>::empty(),
{
    reveal_strlit("\n");
    reveal_with_fuel(text::unspaced, 2);
    assert(text::is_space('\n'));
    assert("\n"@.last() == '\n');
    assert("\n"@.drop_last() =~= Seq::<char>::empty());
}

proof fn lemma_squeezed_keeps_all(s: Seq<char>)
    ensures
        text::unspaced(squeezed(s)) == text::unspaced(s),
{
    let lines = lines_of(s);
    let now = squeezed_lines(lines);
    text::lemma_lines_hold_no_ends(s, 0);
    assert forall|k: int| 0 <= k < now.len() implies text::unspaced(#[trigger] now[k])
        == text::unspaced(lines[k]) by {
        lemma_squeezed_line(lines[k]);
    }
    text::lemma_unspaced_rows(now, lines);
    text::lemma_unspaced_lines(s, 0);
    assert(s.skip(0) =~= s);
}

proof fn lemma_trimmed_tail(a: Seq<char>, b: Seq<char>)
    requires
        trimmed_end(b).len() > 0,
    ensures
        trimmed_end(a + b) == a + trimmed_end(b),
{
    text::lemma_trimmed_end(a + b);
    text::lemma_trimmed_end(b);
    let s = a + b;
    let n = trimmed_end(s).len() as int;
    let m = (a.len() + trimmed_end(b).len()) as int;
    assert(s[m - 1] == b[m - 1 - a.len()]);
    assert(trimmed_end(b).last() == b[m - 1 - a.len()]);
    if n > m {
        assert(s[n - 1] == b[n - 1 - a.len()]);
        assert(trimmed_end(s).last() == s[n - 1]);
    }
    assert(n >= m);
    assert(trimmed_end(s) =~= a + trimmed_end(b));
}

/// A shell report has a line on how the command ended, and then every line of
/// its output and every line of its errors, in that order, each with all that
/// is not white space; whether or not the last line of output had an end.
pub proof fn a_report_shows_every_line(
    os: Seq<Seq<char>>,
    es: Seq<Seq<char>>,
    ended: bool,
    code: int,
)
    requires
        os.len() > 0,
        es.len() > 0,
        forall|i: int| 0 <= i < os.len() ==> text::plain_line(#[trigger] os[i]),
        forall|i: int| 0 <= i < es.len() ==> text::plain_line(#[trigger] es[i]),
        os.last().len() > 0,
        trimmed_end(es.last()).len() > 0,
    ensures
        ({
            let out = joined(os, "\n"@) + (if ended {
                "\n"@
            } else {
                ""@
            });
            let shown = lines_of(shell_text(out, joined(es, "\n"@), code));
            &&& shown.len() == 1 + os.len() + es.len()
            &&& shown[0] == (if code == 0 {
                "ok"@
            } else {
                "exit "@ + signed_decimal(code)
            })
            &&& forall|k: int|
                0 <= k < os.len() ==> text::unspaced(shown[1 + k]) == text::unspaced(
                    #[trigger] os[k],
                )
            &&& forall|k: int|
                0 <= k < es.len() ==> text::unspaced(shown[1 + os.len() + k]) == text::unspaced(
                    #[trigger] es[k],
                )
        }),
{
    reveal_strlit("\n");
    reveal_strlit("");
    assert("\n"@ =~= seq!['\n']);
    let out = joined(os, "\n"@) + (if ended {
        "\n"@
    } else {
        ""@
    });
    let err = joined(es, "\n"@);
    let all = os + es;
    text::lemma_joined_add(os, es, "\n"@);
    lemma_joined_last(os);
    lemma_joined_last(es);
    text::lemma_trimmed_end(es.last());
    assert(err.len() > 0);
    let joint = joined(all, "\n"@);
    if !ended {
        assert(out =~= joined(os, "\n"@));
        assert(out.last() == os.last().last());
        assert(os[os.len() - 1] == os.last());
        assert(out.last() != '\n') by {
            assert(os.last().contains(os.last().last()));
        }
        assert(out + "\n"@ + err =~= joint);
    } else {
        assert(out + err =~= joint);
    }
    let last = all.last();
    let v = all.drop_last().push(trimmed_end(last));
    assert(all.last() == es.last());
    let front = joined(all.drop_last(), "\n"@) + "\n"@;
    assert(joint =~= front + last);
    lemma_trimmed_tail(front, last);
    assert(v.drop_last() =~= all.drop_last());
    assert(joined(v, "\n"@) =~= front + trimmed_end(last));
    let whole = trimmed_end(joint);
    assert(whole == joined(v, "\n"@));
    assert forall|i: int| 0 <= i < v.len() implies text::plain_line(#[trigger] v[i]) by {
        if i < os.len() {
            assert(v[i] == os[i]);
        } else if i < all.len() - 1 {
            assert(v[i] == es[i - os.len()]);
        } else {
            let t = trimmed_end(last);
            assert(es[es.len() - 1] == last);
            assert forall|k: int| 0 <= k < t.len() implies t[k] != '\n' by {
                assert(t[k] == last[k]);
                assert(last.contains(last[k]));
            }
        }
    }
    text::open_lines_read_back(v);
    text::lemma_trimmed_end(whole);
    text::lemma_trimmed_end(joint);
    squeezing_keeps_the_lines(whole);
    let body = squeezed(whole);
    let head = if code == 0 {
        "ok"@
    } else {
        "exit "@ + signed_decimal(code)
    };
    assert(body.len() > 0) by {
        if body.len() == 0 {
            assert(lines_of(body) =~= Seq::<Seq<char>>::empty());
        }
    }
    lemma_report_head(code);
    text::lemma_lines_cons(head, body);
    reveal_strlit("ok");
    reveal_strlit("ok\n");
    assert("ok\n"@ =~= "ok"@ + "\n"@);
    assert(shell_text(out, err, code) =~= head + seq!['\n'] + body);
    let shown = lines_of(shell_text(out, err, code));
    assert(shown == seq![head] + lines_of(body));
    assert forall|k: int| 0 <= k < os.len() implies text::unspaced(shown[1 + k])
        == text::unspaced(#[trigger] os[k]) by {
        assert(shown[1 + k] == lines_of(body)[k]);
        assert(v[k] == os[k]);
    }
    assert forall|k: int| 0 <= k < es.len() implies text::unspaced(shown[1 + os.len() + k])
        == text::unspaced(#[trigger] es[k]) by {
        assert(shown[1 + os.len() + k] == lines_of(body)[os.len() + k]);
        if k < es.len() - 1 {
            assert(v[os.len() + k] == es[k]);
        } else {
            assert(v[os.len() + k] == trimmed_end(last));
            text::lemma_unspaced_take(last, trimmed_end(last).len() as int);
        }
    }
}

proof fn lemma_report_head(code: int)
    ensures
        text::plain_line("ok"@),
        text::plain_line("exit "@ + signed_decimal(code)),
{
    reveal_strlit("ok");
    reveal_strlit("exit ");
    reveal_strlit("-");
    assert forall|i: int| 0 <= i < "ok"@.len() implies "ok"@[i] != '\n' by {}
    let n = if code < 0 {
        (-code) as nat
    } else {
        code as nat
    };
    text::lemma_decimal(n);
    let d = decimal(n);
    let s = "exit "@ + signed_decimal(code);
    assert forall|i: int| 0 <= i < s.len() implies s[i] != '\n' && s[i] != '\r' by {
        if i >= 5 && i >= s.len() - d.len() {
            assert(s[i] == d[i - (s.len() - d.len())]);
            assert(text::is_digit(s[i]));
        }
    }
}

proof fn lemma_joined_last(v: Seq<Seq<char>>)
    requires
        v.len() > 0,
        v.last().len() > 0,
    ensures
        joined(v, "\n"@).len() > 0,
        joined(v, "\n"@).last() == v.last().last(),
{
}

/// The program and its arguments that run a line in a shell.
pub open spec fn shell_argv(shell: Seq<char>, line: Seq<char>) -> Seq<Seq<char>> {
    if shell == "powershell"@ {
        seq!["powershell"@, "-NoProfile"@, "-NonInteractive"@, "-Command"@, line]
    } else if shell == "cmd"@ {
        seq!["cmd"@, "/C"@, line]
    } else {
        seq!["sh"@, "-c"@, line]
    }
}

/// The command line that runs `line` in the configured shell.
pub fn shell_command(shell: &str, line: &str) -> (r: Vec<String>)
    ensures
        texts(r@) == shell_argv(shell@, line@),
{
    let r = if text::same(shell, "powershell") {
        vec![
            "powershell".to_string(),
            "-NoProfile".to_string(),
            "-NonInteractive".to_string(),
            "-Command".to_string(),
            line.to_owned(),
        ]
    } else if text::same(shell, "cmd") {
        vec!["cmd".to_string(), "/C".to_string(), line.to_owned()]
    } else {
        vec!["sh".to_string(), "-c".to_string(), line.to_owned()]
    };
    assert(texts(r@) =~= shell_argv(shell@, line@));
    r
}

// ---------------------------------------------------------------------------
// Pruners
// ---------------------------------------------------------------------------

/// The first `head` and the last `tail` lines, with a note of how many were
/// left out; the whole text where that would save nothing.
pub open spec fn head_and_tail(text: Seq<char>, head: int, tail: int) -> Seq<char> {
    let lines = lines_of(text);
    if lines.len() <= head + tail + 1 {
        text
    } else {
        joined(lines.take(head), "\n"@) + "\n"@ + "…("@ + decimal(
            (lines.len() - head - tail) as nat,
        ) + " lines elided)…"@ + "\n"@ + joined(lines.skip(lines.len() - tail), "\n"@)
    }
}

fn head_tail(text: &str, head: usize, tail: usize) -> (r: String)
    ensures
        r@ == head_and_tail(text@, head as int, tail as int),
{
    let lines = text::lines(text);
    let n = lines.len();
    if (n as u128) <= (head as u128) + (tail as u128) + 1 {
        return text.to_owned();
    }
    let mut r = text::join_range(&lines, 0, head, "\n");
    r.append("\n");
    r.append("…(");
    let left = text::dec((n - head - tail) as u64);
    r.append(&left);
    r.append(" lines elided)…");
    r.append("\n");
    let end = text::join_range(&lines, n - tail, n, "\n");
    r.append(&end);
    proof {
        let all = lines_of(text@);
        assert(all.subrange(0, head as int) =~= all.take(head as int));
        assert(all.subrange(n - tail, n as int) =~= all.skip(n - tail));
    }
    r
}

/// The first line from `i` on that matches.
pub open spec fn first_hit(re: regex::Regex, lines: Seq<Seq<char>>, i: int) -> Option<int>
    decreases lines.len() - i,
{
    if 0 <= i < lines.len() {
        if regex_matches(re, lines[i]) {
            Some(i)
        } else {
            first_hit(re, lines, i + 1)
        }
    } else {
        None
    }
}

/// What marks a line as a failure.
pub const FAILURE: &'static str =
    r"(?i)\b(FAILED|error(\[|:)|panicked|assert|Traceback|Exception)\b";

/// What marks a line as an error.
pub const ERRORS: &'static str = r"(?i)\b(error|panic|failed|exception|traceback)\b";

/// From the first failing line on, 25 lines and a note of what follows; the
/// ends of the text where no line fails.
pub open spec fn failure_part(text: Seq<char>) -> Seq<char> {
    let lines = lines_of(text);
    let hit = match regex_of(FAILURE@) {
        Ok(re) => first_hit(re, lines, 0),
        Err(_) => None,
    };
    match hit {
        Some(i) => {
            let hi = if i + 25 < lines.len() {
                i + 25
            } else {
                lines.len() as int
            };
            let part = joined(lines.subrange(i, hi), "\n"@);
            if hi < lines.len() {
                part + "\n…("@ + decimal((lines.len() - hi) as nat) + " more lines)"@
            } else {
                part
            }
        },
        None => head_and_tail(text, 5, 5),
    }
}

fn first_match(re: &regex::Regex, lines: &Vec<String>) -> (r: Option<usize>)
    ensures
        match r {
            Some(i) => first_hit(*re, texts(lines@), 0) == Some(i as int) && i < lines@.len(),
            None => first_hit(*re, texts(lines@), 0) is None,
        },
{
    let mut i: usize = 0;
    while i < lines.len()
        invariant
            i <= lines@.len(),
            first_hit(*re, texts(lines@), 0) == first_hit(*re, texts(lines@), i as int),
        decreases lines@.len() - i,
    {
        assert(texts(lines@)[i as int] == lines@[i as int]@);
        if re.is_match(&lines[i]) {
            return Some(i);
        }
        i = i + 1;
    }
    None
}

fn first_failure(text: &str) -> (r: String)
    ensures
        r@ == failure_part(text@),
{
    let lines = text::lines(text);
    let hit = match pattern::compile(FAILURE) {
        Ok(re) => first_match(&re, &lines),
        Err(_) => None,
    };
    match hit {
        Some(i) => {
            let n = lines.len();
            let hi = if n - i > 25 {
                i + 25
            } else {
                n
            };
            let mut r = text::join_range(&lines, i, hi, "\n");
            if hi < n {
                r.append("\n…(");
                let left = text::dec((n - hi) as u64);
                r.append(&left);
                r.append(" more lines)");
            }
            r
        },
        None => head_tail(text, 5, 5),
    }
}

/// The first `n` lines without those whose match is not as wanted.
pub open spec fn picked(re: regex::Regex, lines: Seq<Seq<char>>, n: int, wanted: bool) -> Seq<
    Seq<char>,
>
    decreases n,
{
    if n <= 0 {
        Seq::empty()
    } else if regex_matches(re, lines[n - 1]) == wanted {
        picked(re, lines, n - 1, wanted).push(lines[n - 1])
    } else {
        picked(re, lines, n - 1, wanted)
    }
}

fn pick(re: &regex::Regex, text: &str, wanted: bool) -> (r: Vec<String>)
    ensures
        texts(r@) == picked(*re, lines_of(text@), lines_of(text@).len() as int, wanted),
{
    let lines = text::lines(text);
    let mut r: Vec<String> = Vec::new();
    let mut i: usize = 0;
    assert(texts(r@) =~= Seq::<Seq<char>>::empty());
    while i < lines.len()
        invariant
            i <= lines@.len(),
            texts(lines@) == lines_of(text@),
            texts(r@) == picked(*re, lines_of(text@), i as int, wanted),
        decreases lines@.len() - i,
    {
        assert(texts(lines@)[i as int] == lines@[i as int]@);
        if re.is_match(&lines[i]) == wanted {
            let line = lines[i].clone();
            proof {
                text::lemma_texts_push(r@, line);
            }
            r.push(line);
        }
        i = i + 1;
    }
    r
}

/// The lines that match; a note where none does, everything where the pattern
/// is no regular expression.
pub open spec fn kept(text: Seq<char>, pat: Seq<char>) -> Seq<char> {
    match regex_of(pat) {
        Ok(re) => {
            let lines = picked(re, lines_of(text), lines_of(text).len() as int, true);
            if lines.len() == 0 {
                "(no matching lines)"@
            } else {
                joined(lines, "\n"@)
            }
        },
        Err(_) => text,
    }
}

fn keep_matching(text: &str, pat: &str) -> (r: String)
    ensures
        r@ == kept(text@, pat@),
{
    match pattern::compile(pat) {
        Ok(re) => {
            let lines = pick(&re, text, true);
            if lines.len() == 0 {
                assert(texts(lines@).len() == 0);
                "(no matching lines)".to_string()
            } else {
                assert(texts(lines@).len() != 0);
                text::join(&lines, "\n")
            }
        },
        Err(_) => text.to_owned(),
    }
}

/// The lines that do not match; everything where the pattern is no regular
/// expression.
pub open spec fn dropped(text: Seq<char>, pat: Seq<char>) -> Seq<char> {
    match regex_of(pat) {
        Ok(re) => joined(picked(re, lines_of(text), lines_of(text).len() as int, false), "\n"@),
        Err(_) => text,
    }
}

fn drop_matching(text: &str, pat: &str) -> (r: String)
    ensures
        r@ == dropped(text@, pat@),
{
    match pattern::compile(pat) {
        Ok(re) => text::join(&pick(&re, text, false), "\n"),
        Err(_) => text.to_owned(),
    }
}

/// A number of lines: the default where none is written.
pub open spec fn lines_or(s: Seq<char>, default: int) -> int {
    match parsed_upto(trimmed(s), usize::MAX as nat) {
        Some(n) => n as int,
        None => default,
    }
}

fn number_or(s: &str, default: usize) -> (r: usize)
    ensures
        r == lines_or(s@, default as int),
{
    match text::parse_usize(&text::trim(s)) {
        Some(n) => n,
        None => default,
    }
}

/// One stage of a pruner chain, `name[:args]`; a stage of another name passes
/// everything through.
pub open spec fn pruned_stage(stage: Seq<char>, cur: Seq<char>) -> Seq<char> {
    let (name, args) = match cut(stage, ':') {
        Some(p) => p,
        None => (stage, ""@),
    };
    if name == "head_tail"@ {
        match cut(args, ',') {
            Some((a, b)) => head_and_tail(cur, lines_or(a, 20), lines_or(b, 10)),
            None => head_and_tail(cur, 20, 10),
        }
    } else if name == "first_failure"@ {
        failure_part(cur)
    } else if name == "errors_only"@ {
        kept(cur, ERRORS@)
    } else if name == "keep"@ {
        kept(cur, args)
    } else if name == "drop"@ {
        dropped(cur, args)
    } else {
        cur
    }
}

fn prune_stage(stage: &str, cur: String) -> (r: String)
    ensures
        r@ == pruned_stage(stage@, cur@),
{
    let (name, args) = match text::split_once(stage, ':') {
        Some(p) => p,
        None => (stage.to_owned(), "".to_string()),
    };
    if text::same(&name, "head_tail") {
        match text::split_once(&args, ',') {
            Some((a, b)) => head_tail(&cur, number_or(&a, 20), number_or(&b, 10)),
            None => head_tail(&cur, 20, 10),
        }
    } else if text::same(&name, "first_failure") {
        first_failure(&cur)
    } else if text::same(&name, "errors_only") {
        keep_matching(&cur, ERRORS)
    } else if text::same(&name, "keep") {
        keep_matching(&cur, &args)
    } else if text::same(&name, "drop") {
        drop_matching(&cur, &args)
    } else {
        cur
    }
}

/// The first `n` stages applied one after the other.
pub open spec fn pruned_by(stages: Seq<Seq<char>>, n: int, text: Seq<char>) -> Seq<char>
    decreases n,
{
    if n <= 0 {
        text
    } else {
        pruned_stage(trimmed(stages[n - 1]), pruned_by(stages, n - 1, text))
    }
}

/// A text after a chain of pruners, separated by `|`.
pub open spec fn pruned(spec_text: Seq<char>, text: Seq<char>) -> Seq<char> {
    let stages = pieces_of(spec_text, '|');
    pruned_by(stages, stages.len() as int, text)
}

/// Structural pruners. Spec: name[:args], chained with '|'.
pub fn prune(chain: &str, text: &str) -> (r: String)
    ensures
        r@ == pruned(chain@, text@),
{
    let stages = text::split(chain, '|');
    let mut cur = text.to_owned();
    let mut i: usize = 0;
    while i < stages.len()
        invariant
            i <= stages@.len(),
            texts(stages@) == pieces_of(chain@, '|'),
            cur@ == pruned_by(pieces_of(chain@, '|'), i as int, text@),
        decreases stages@.len() - i,
    {
        assert(texts(stages@)[i as int] == stages@[i as int]@);
        cur = prune_stage(&text::trim(&stages[i]), cur);
        i = i + 1;
    }
    cur
}

// ---------------------------------------------------------------------------
// The workspace
// ---------------------------------------------------------------------------

pub const READ_LINE_MAX: usize = 500;

/// The workspace: root dir + the file intern table. Paths are token sinks, so
/// after first contact every file is a small integer (#3) in both directions.
pub struct Workspace {
    pub root: String,
    files: Vec<String>,
    written: Vec<String>,
}

/// What a workspace remembers.
#[verifier::ext_equal]
pub struct WorkV {
    pub root: Seq<char>,
    /// The interned paths; the id of a file is its place here.
    pub files: Seq<Seq<char>>,
    /// The files created or modified, each once.
    pub written: Seq<Seq<char>>,
}

impl View for Workspace {
    type V = WorkV;

    closed spec fn view(&self) -> WorkV {
        WorkV { root: self.root@, files: texts(self.files@), written: texts(self.written@) }
    }
}

/// What the file system says of a target: whether the path is a file, which
/// files in the tree have that name, and what the file that the target stands
/// for holds.
pub struct Found {
    pub is_file: bool,
    pub namesakes: Vec<String>,
    pub text: Result<String, String>,
}

/// The first `n` pieces of a path that count: empty ones do not, nor does a
/// `.` that is not the first.
pub open spec fn parts_upto(pieces: Seq<Seq<char>>, n: int) -> Seq<Seq<char>>
    decreases n,
{
    if n <= 0 {
        Seq::empty()
    } else if pieces[n - 1].len() == 0 || (n > 1 && pieces[n - 1] == "."@) {
        parts_upto(pieces, n - 1)
    } else {
        parts_upto(pieces, n - 1).push(pieces[n - 1])
    }
}

/// What a path says: whether it is absolute, and its parts. Repeated and
/// trailing separators and inner dots say nothing.
pub open spec fn parts_of(path: Seq<char>) -> (bool, Seq<Seq<char>>) {
    let pieces = pieces_of(path, '/');
    (path.len() > 0 && path[0] == '/', parts_upto(pieces, pieces.len() as int))
}

/// Whether two texts are the same path.
pub open spec fn same_path(a: Seq<char>, b: Seq<char>) -> bool {
    parts_of(a) == parts_of(b)
}

fn parts(path: &str) -> (r: (bool, Vec<String>))
    ensures
        (r.0, texts(r.1@)) == parts_of(path@),
{
    let pieces = text::split(path, '/');
    let ghost all = pieces_of(path@, '/');
    let mut kept: Vec<String> = Vec::new();
    let mut i: usize = 0;
    assert(texts(kept@) =~= Seq::<Seq<char>>::empty());
    while i < pieces.len()
        invariant
            i <= pieces@.len(),
            all == texts(pieces@),
            texts(kept@) == parts_upto(all, i as int),
        decreases pieces@.len() - i,
    {
        assert(all[i as int] == pieces@[i as int]@);
        if !text::empty(&pieces[i]) && !(i > 0 && text::same(&pieces[i], ".")) {
            let piece = pieces[i].clone();
            proof {
                text::lemma_texts_push(kept@, piece);
            }
            kept.push(piece);
        }
        i = i + 1;
    }
    assert(texts(pieces@).len() == pieces@.len());
    let v = text::chars_of(path);
    (v.len() > 0 && v[0] == '/', kept)
}

fn equal_texts(a: &Vec<String>, b: &Vec<String>) -> (r: bool)
    ensures
        r == (texts(a@) == texts(b@)),
{
    assert(texts(a@).len() == a@.len());
    assert(texts(b@).len() == b@.len());
    if a.len() != b.len() {
        return false;
    }
    let mut i: usize = 0;
    while i < a.len()
        invariant
            i <= a@.len(),
            a@.len() == b@.len(),
            forall|k: int| 0 <= k < i ==> texts(a@)[k] == texts(b@)[k],
        decreases a@.len() - i,
    {
        assert(texts(a@)[i as int] == a@[i as int]@);
        assert(texts(b@)[i as int] == b@[i as int]@);
        if !text::same(&a[i], &b[i]) {
            return false;
        }
        i = i + 1;
    }
    assert(texts(a@) =~= texts(b@));
    true
}

/// Where a path first stands in a list, from `i` on.
pub open spec fn place_of(v: Seq<Seq<char>>, x: Seq<char>, i: int) -> Option<int>
    decreases v.len() - i,
{
    if 0 <= i < v.len() {
        if same_path(v[i], x) {
            Some(i)
        } else {
            place_of(v, x, i + 1)
        }
    } else {
        None
    }
}

pub proof fn lemma_place_of(v: Seq<Seq<char>>, x: Seq<char>, i: int)
    requires
        0 <= i,
    ensures
        match place_of(v, x, i) {
            Some(k) => i <= k < v.len() && same_path(v[k], x) && forall|m: int|
                i <= m < k ==> !same_path(#[trigger] v[m], x),
            None => forall|m: int| i <= m < v.len() ==> !same_path(#[trigger] v[m], x),
        },
    decreases v.len() - i,
{
    if i < v.len() && !same_path(v[i], x) {
        lemma_place_of(v, x, i + 1);
    }
}

fn find_place(v: &Vec<String>, x: &str) -> (r: Option<usize>)
    ensures
        match r {
            Some(i) => place_of(texts(v@), x@, 0) == Some(i as int) && i < v@.len(),
            None => place_of(texts(v@), x@, 0) is None,
        },
{
    let (absolute, own) = parts(x);
    let mut i: usize = 0;
    while i < v.len()
        invariant
            i <= v@.len(),
            (absolute, texts(own@)) == parts_of(x@),
            place_of(texts(v@), x@, 0) == place_of(texts(v@), x@, i as int),
        decreases v@.len() - i,
    {
        assert(texts(v@)[i as int] == v@[i as int]@);
        let (a, p) = parts(&v[i]);
        if a == absolute && equal_texts(&p, &own) {
            return Some(i);
        }
        i = i + 1;
    }
    None
}

/// The list with `x` in it: unchanged where it has that path.
pub open spec fn with_path(v: Seq<Seq<char>>, x: Seq<char>) -> Seq<Seq<char>> {
    if place_of(v, x, 0) is Some {
        v
    } else {
        v.push(x)
    }
}

/// The id of `x` in the list, or the one it gets next.
pub open spec fn id_in(v: Seq<Seq<char>>, x: Seq<char>) -> u32 {
    match place_of(v, x, 0) {
        Some(i) => i as u32,
        None => v.len() as u32,
    }
}

/// How the list spells `x`, or will once it has it.
pub open spec fn spelled(v: Seq<Seq<char>>, x: Seq<char>) -> Seq<char> {
    match place_of(v, x, 0) {
        Some(i) => v[i],
        None => x,
    }
}

/// The workspace with `rel` interned.
pub open spec fn interned(w: WorkV, rel: Seq<char>) -> WorkV {
    WorkV { files: with_path(w.files, rel), ..w }
}

/// A target without its leading `#`.
pub open spec fn bare_target(target: Seq<char>) -> Seq<char> {
    match stripped(target, "#"@) {
        Some(rest) => rest,
        None => target,
    }
}

/// The path that a target names, with forward slashes; `None` for an id.
pub open spec fn path_in(target: Seq<char>) -> Option<Seq<char>> {
    if parsed_upto(bare_target(target), u32::MAX as nat) is Some {
        None
    } else {
        Some(swapped(bare_target(target), '\\', '/'))
    }
}

/// What a target stands for: the id and the path of a file, or why there is
/// none. A path that is no file still stands for the one file of that name,
/// where the tree has exactly one.
pub open spec fn resolved(
    w: WorkV,
    target: Seq<char>,
    is_file: bool,
    namesakes: Seq<Seq<char>>,
) -> (WorkV, Result<(u32, Seq<char>), Seq<char>>) {
    let t = bare_target(target);
    match parsed_upto(t, u32::MAX as nat) {
        Some(id) => if id < w.files.len() {
            (w, Ok((id as u32, w.files[id as int])))
        } else {
            (w, Err("no file #"@ + decimal(id)))
        },
        None => {
            let rel = swapped(t, '\\', '/');
            if is_file {
                (interned(w, rel), Ok((id_in(w.files, rel), spelled(w.files, rel))))
            } else if namesakes.len() == 1 && !rel.contains('/') {
                (
                    interned(w, namesakes[0]),
                    Ok((id_in(w.files, namesakes[0]), spelled(w.files, namesakes[0]))),
                )
            } else {
                (w, Err("not a file: "@ + t))
            }
        },
    }
}

/// What a result of `resolve` says.
pub open spec fn resolution(r: Result<(u32, String), String>) -> Result<(u32, Seq<char>), Seq<char>> {
    match r {
        Ok((id, path)) => Ok((id, path@)),
        Err(e) => Err(e@),
    }
}

/// What a result that is a text says.
pub open spec fn answer(r: Result<String, String>) -> Result<Seq<char>, Seq<char>> {
    match r {
        Ok(t) => Ok(t@),
        Err(e) => Err(e@),
    }
}

/// The numbered lines `a..=b` of a file.
pub open spec fn numbered(lines: Seq<Seq<char>>, a: int, b: int) -> Seq<char>
    decreases b - a + 1,
{
    if a > b {
        Seq::empty()
    } else {
        numbered(lines, a, b - 1) + decimal(b as nat) + ":"@ + clipped(
            lines[b - 1],
            READ_LINE_MAX as int,
        ) + "\n"@
    }
}

/// `s` without its last character.
pub open spec fn chopped(s: Seq<char>) -> Seq<char> {
    if s.len() > 0 {
        s.drop_last()
    } else {
        s
    }
}

/// The lines that a read shows: all, or the requested range cut to the file.
pub open spec fn read_range(range: Option<(usize, usize)>, n: int) -> (int, int) {
    match range {
        Some((a, b)) => (
            if a < 1 {
                1
            } else {
                a as int
            },
            if b < n {
                b as int
            } else {
                n
            },
        ),
        None => (1, n),
    }
}

/// How a read of a file reads: a header, then the lines with their numbers.
pub open spec fn read_text(
    id: u32,
    path: Seq<char>,
    range: Option<(usize, usize)>,
    text: Seq<char>,
) -> Result<Seq<char>, Seq<char>> {
    let lines = lines_of(text);
    let n = lines.len() as int;
    let (a, b) = read_range(range, n);
    if a > n {
        Err("#"@ + decimal(id as nat) + " has only "@ + decimal(n as nat) + " lines"@)
    } else {
        Ok(
            chopped(
                "#"@ + decimal(id as nat) + " "@ + path + " "@ + decimal(a as nat) + ":"@ + decimal(
                    b as nat,
                ) + " of "@ + decimal(n as nat) + "\n"@ + numbered(lines, a, b),
            ),
        )
    }
}

fn read_view(id: u32, path: &str, range: Option<(usize, usize)>, text: &str) -> (r: Result<
    String,
    String,
>)
    ensures
        answer(r) == read_text(id, path@, range, text@),
{
    let lines = text::lines(text);
    let n = lines.len();
    assert(lines_of(text@).len() == n);
    let (a, b) = match range {
        Some((x, y)) => (
            if x < 1 {
                1
            } else {
                x
            },
            if y < n {
                y
            } else {
                n
            },
        ),
        None => (1, n),
    };
    let shown_id = text::dec(id as u64);
    let shown_n = text::dec(n as u64);
    if a > n {
        let mut e = "#".to_string();
        e.append(&shown_id);
        e.append(" has only ");
        e.append(&shown_n);
        e.append(" lines");
        return Err(e);
    }
    let mut out = "#".to_string();
    out.append(&shown_id);
    out.append(" ");
    out.append(path);
    out.append(" ");
    let shown_a = text::dec(a as u64);
    out.append(&shown_a);
    out.append(":");
    let shown_b = text::dec(b as u64);
    out.append(&shown_b);
    out.append(" of ");
    out.append(&shown_n);
    out.append("\n");
    let ghost header = out@;
    let mut i: usize = a - 1;
    assert(out@ =~= header + numbered(lines_of(text@), a as int, a - 1));
    while i < b
        invariant
            1 <= a <= i + 1,
            i <= b || i == a - 1,
            b <= lines@.len(),
            texts(lines@) == lines_of(text@),
            out@ == header + numbered(lines_of(text@), a as int, i as int),
        decreases b - i,
    {
        assert(texts(lines@)[i as int] == lines@[i as int]@);
        let number = text::dec((i + 1) as u64);
        out.append(&number);
        out.append(":");
        let line = clip(&lines[i], READ_LINE_MAX);
        out.append(&line);
        out.append("\n");
        assert(out@ =~= header + numbered(lines_of(text@), a as int, i + 1));
        i = i + 1;
    }
    proof {
        if b < a - 1 {
            assert(numbered(lines_of(text@), a as int, b as int) =~= Seq::<char>::empty());
            assert(numbered(lines_of(text@), a as int, a - 1) =~= Seq::<char>::empty());
        }
    }
    let v = text::chars_of(&out);
    let r = if v.len() > 0 {
        text::text_between(&v, 0, v.len() - 1)
    } else {
        out
    };
    assert(r@ =~= chopped(header + numbered(lines_of(text@), a as int, b as int)));
    Ok(r)
}

impl Workspace {
    pub fn new(root: String) -> (r: Workspace)
        ensures
            r@ == (WorkV { root: root@, files: Seq::empty(), written: Seq::empty() }),
    {
        let r = Workspace { root, files: Vec::new(), written: Vec::new() };
        assert(r@.files =~= Seq::<Seq<char>>::empty());
        assert(r@.written =~= Seq::<Seq<char>>::empty());
        r
    }

    /// How many files are interned.
    pub fn file_count(&self) -> (n: usize)
        ensures
            n == self@.files.len(),
    {
        self.files.len()
    }

    /// The id of a path, interned on first use. Two spellings of one path get
    /// one id.
    pub fn intern(&mut self, rel: &str) -> (id: u32)
        ensures
            final(self)@ == interned(old(self)@, rel@),
            id == id_in(old(self)@.files, rel@),
    {
        self.locate(rel).0
    }

    fn locate(&mut self, rel: &str) -> (r: (u32, String))
        ensures
            final(self)@ == interned(old(self)@, rel@),
            r.0 == id_in(old(self)@.files, rel@),
            r.1@ == spelled(old(self)@.files, rel@),
    {
        match find_place(&self.files, rel) {
            Some(i) => {
                assert(texts(self.files@)[i as int] == self.files@[i as int]@);
                (i as u32, self.files[i].clone())
            },
            None => {
                let at = self.files.len();
                let path = rel.to_owned();
                proof {
                    text::lemma_texts_push(self.files@, path);
                }
                self.files.push(path);
                (at as u32, rel.to_owned())
            },
        }
    }

    /// The path that a target names and that the file system has to be asked
    /// about; `None` where the target is an id.
    pub fn path_named(target: &str) -> (r: Option<String>)
        ensures
            opt_text(r) == path_in(target@),
    {
        let t = match text::strip_prefix(target, "#") {
            Some(rest) => rest,
            None => target.to_owned(),
        };
        match text::parse_u32(&t) {
            Some(_) => None,
            None => Some(text::replace_char(&t, '\\', '/')),
        }
    }

    /// Target is either an intern id ("3" or "#3") or a path (interned on first
    /// use). A bare name that is no file itself stands for the one file in the
    /// tree that has it; an ambiguous name is not guessed.
    pub fn resolve(&mut self, target: &str, is_file: bool, namesakes: &Vec<String>) -> (r: Result<
        (u32, String),
        String,
    >)
        ensures
            (final(self)@, resolution(r)) == resolved(
                old(self)@,
                target@,
                is_file,
                texts(namesakes@),
            ),
    {
        let t = match text::strip_prefix(target, "#") {
            Some(rest) => rest,
            None => target.to_owned(),
        };
        if let Some(id) = text::parse_u32(&t) {
            if (id as usize) < self.files.len() {
                assert(texts(self.files@)[id as int] == self.files@[id as int]@);
                return Ok((id, self.files[id as usize].clone()));
            }
            let mut e = "no file #".to_string();
            let n = text::dec(id as u64);
            e.append(&n);
            return Err(e);
        }
        let rel = text::replace_char(&t, '\\', '/');
        if is_file {
            return Ok(self.locate(&rel));
        }
        assert(texts(namesakes@).len() == namesakes@.len());
        if namesakes.len() == 1 && !crate::config::has_char(&rel, '/') {
            let path = namesakes[0].clone();
            assert(texts(namesakes@)[0] == path@);
            return Ok(self.locate(&path));
        }
        let mut e = "not a file: ".to_string();
        e.append(&t);
        Err(e)
    }

    /// Numbered lines of a file.
    pub fn read(&mut self, target: &str, range: Option<(usize, usize)>, found: &Found) -> (r: Result<
        String,
        String,
    >)
        ensures
            ({
                let (w, at) = resolved(
                    old(self)@,
                    target@,
                    found.is_file,
                    texts(found.namesakes@),
                );
                &&& final(self)@ == w
                &&& answer(r) == (match at {
                    Ok((id, path)) => match found.text {
                        Ok(t) => read_text(id, path, range, t@),
                        Err(e) => Err("read "@ + target@ + ": "@ + e@),
                    },
                    Err(e) => Err(e),
                })
            }),
    {
        let (id, path) = match self.resolve(target, found.is_file, &found.namesakes) {
            Ok(p) => p,
            Err(e) => {
                return Err(e);
            },
        };
        match &found.text {
            Ok(t) => read_view(id, &path, range, t),
            Err(e) => {
                let mut msg = "read ".to_string();
                msg.append(target);
                msg.append(": ");
                msg.append(e);
                Err(msg)
            },
        }
    }
}

// ---------------------------------------------------------------------------
// Edits
// ---------------------------------------------------------------------------

/// A change to one file: what to write where, and what to tell the model.
pub struct Edited {
    pub path: String,
    pub text: String,
    pub report: String,
}

/// What a change says.
#[verifier::ext_equal]
pub struct EditedV {
    pub path: Seq<char>,
    pub text: Seq<char>,
    pub report: Seq<char>,
}

impl View for Edited {
    type V = EditedV;

    open spec fn view(&self) -> EditedV {
        EditedV { path: self.path@, text: self.text@, report: self.report@ }
    }
}

/// What a result that is a change says.
pub open spec fn edit_answer(r: Result<Edited, String>) -> Result<EditedV, Seq<char>> {
    match r {
        Ok(e) => Ok(e@),
        Err(e) => Err(e@),
    }
}

/// `lines` with those from `a` up to `b` replaced by `new`.
pub open spec fn spliced(lines: Seq<Seq<char>>, a: int, b: int, new: Seq<Seq<char>>) -> Seq<
    Seq<char>,
> {
    lines.take(a) + new + lines.skip(b)
}

fn splice(lines: &Vec<String>, a: usize, b: usize, new: &Vec<String>) -> (r: Vec<String>)
    requires
        a <= b <= lines@.len(),
    ensures
        texts(r@) == spliced(texts(lines@), a as int, b as int, texts(new@)),
{
    let mut r: Vec<String> = Vec::new();
    copy_into(&mut r, lines, 0, a);
    copy_into(&mut r, new, 0, new.len());
    copy_into(&mut r, lines, b, lines.len());
    proof {
        let all = texts(lines@);
        assert(all.subrange(0, a as int) =~= all.take(a as int));
        assert(all.subrange(b as int, all.len() as int) =~= all.skip(b as int));
        assert(texts(new@).subrange(0, new@.len() as int) =~= texts(new@));
        assert(texts(r@) =~= spliced(all, a as int, b as int, texts(new@)));
    }
    r
}

pub(crate) fn copy_into(r: &mut Vec<String>, v: &Vec<String>, a: usize, b: usize)
    requires
        a <= b <= v@.len(),
    ensures
        texts(final(r)@) == texts(old(r)@) + texts(v@).subrange(a as int, b as int),
{
    let mut i: usize = a;
    let ghost r0 = texts(r@);
    assert(texts(r@) =~= r0 + texts(v@).subrange(a as int, a as int));
    while i < b
        invariant
            a <= i <= b <= v@.len(),
            texts(r@) == r0 + texts(v@).subrange(a as int, i as int),
        decreases b - i,
    {
        let s = v[i].clone();
        let ghost before = r@;
        r.push(s);
        proof {
            text::lemma_texts_push(before, s);
            assert(texts(v@).subrange(a as int, i + 1) =~= texts(v@).subrange(
                a as int,
                i as int,
            ).push(s@));
            assert(texts(r@) =~= r0 + texts(v@).subrange(a as int, i + 1));
        }
        i = i + 1;
    }
}

/// The lines `lo..=hi` with their numbers, each on a line of its own.
pub open spec fn region(lines: Seq<Seq<char>>, lo: int, hi: int) -> Seq<char>
    decreases hi - lo + 1,
{
    if lo > hi {
        Seq::empty()
    } else {
        region(lines, lo, hi - 1) + "\n"@ + decimal(hi as nat) + ":"@ + lines[hi - 1]
    }
}

/// "ok #2 now 120 lines" and the touched region freshly numbered, with two
/// lines of context on either side.
pub open spec fn region_text(id: u32, lines: Seq<Seq<char>>, start: int, added: int) -> Seq<char> {
    let total = lines.len() as int;
    let lo = if start > 2 {
        start - 2
    } else {
        1
    };
    let hi = if start + added + 1 < total {
        start + added + 1
    } else {
        total
    };
    "ok #"@ + decimal(id as nat) + " now "@ + decimal(total as nat) + " lines"@ + region(
        lines,
        lo,
        hi,
    )
}

fn region_report(id: u32, lines: &Vec<String>, start: u128, added: usize) -> (r: String)
    requires
        start <= usize::MAX + 1,
    ensures
        r@ == region_text(id, texts(lines@), start as int, added as int),
{
    let total = lines.len();
    let lo: usize = if start > 2 {
        (start - 2) as usize
    } else {
        1
    };
    let hi: usize = if start + (added as u128) + 1 < total as u128 {
        (start + (added as u128) + 1) as usize
    } else {
        total
    };
    let mut out = "ok #".to_string();
    let shown_id = text::dec(id as u64);
    out.append(&shown_id);
    out.append(" now ");
    let shown_total = text::dec(total as u64);
    out.append(&shown_total);
    out.append(" lines");
    let ghost header = out@;
    let mut i: usize = lo - 1;
    assert(out@ =~= header + region(texts(lines@), lo as int, lo - 1));
    while i < hi
        invariant
            1 <= lo <= i + 1,
            i <= hi || i == lo - 1,
            hi <= lines@.len(),
            out@ == header + region(texts(lines@), lo as int, i as int),
        decreases hi - i,
    {
        assert(texts(lines@)[i as int] == lines@[i as int]@);
        out.append("\n");
        let number = text::dec((i + 1) as u64);
        out.append(&number);
        out.append(":");
        out.append(&lines[i]);
        assert(out@ =~= header + region(texts(lines@), lo as int, i + 1));
        i = i + 1;
    }
    proof {
        if hi < lo - 1 {
            assert(region(texts(lines@), lo as int, hi as int) =~= Seq::<char>::empty());
            assert(region(texts(lines@), lo as int, lo - 1) =~= Seq::<char>::empty());
        }
    }
    out
}

/// The text of a file with the given lines; `ended` = its last line has an end.
pub open spec fn file_text(lines: Seq<Seq<char>>, ended: bool) -> Seq<char> {
    if ended {
        joined(lines, "\n"@) + "\n"@
    } else {
        joined(lines, "\n"@)
    }
}

/// Whether the last line of a text has an end.
pub open spec fn is_ended(text: Seq<char>) -> bool {
    text.len() > 0 && text.last() == '\n'
}

fn lines_text(lines: &Vec<String>, ended: bool) -> (r: String)
    ensures
        r@ == file_text(texts(lines@), ended),
{
    let mut t = text::join(lines, "\n");
    if ended {
        t.append("\n");
    }
    t
}

fn has_end(s: &str) -> (r: bool)
    ensures
        r == is_ended(s@),
{
    let v = text::chars_of(s);
    v.len() > 0 && v[v.len() - 1] == '\n'
}

/// The change that replaces lines `a..=b` of a file by the lines of `body`.
pub open spec fn edit_of(
    id: u32,
    path: Seq<char>,
    text: Seq<char>,
    a: int,
    b: int,
    body: Seq<char>,
) -> Result<EditedV, Seq<char>> {
    let lines = lines_of(text);
    if a < 1 || b < a || b > lines.len() {
        Err(
            "bad range "@ + decimal(a as nat) + ":"@ + decimal(b as nat) + " (#"@ + decimal(
                id as nat,
            ) + " has "@ + decimal(lines.len()) + " lines)"@,
        )
    } else {
        let after = spliced(lines, a - 1, b, lines_of(body));
        Ok(
            EditedV {
                path,
                text: file_text(after, is_ended(text)),
                report: region_text(id, after, a, lines_of(body).len() as int),
            },
        )
    }
}

fn make_edit(id: u32, path: String, text: &str, a: usize, b: usize, body: &str) -> (r: Result<
    Edited,
    String,
>)
    ensures
        edit_answer(r) == edit_of(id, path@, text@, a as int, b as int, body@),
{
    let lines = text::lines(text);
    assert(lines_of(text@).len() == lines@.len());
    if a < 1 || b < a || b > lines.len() {
        let mut e = "bad range ".to_string();
        let shown_a = text::dec(a as u64);
        e.append(&shown_a);
        e.append(":");
        let shown_b = text::dec(b as u64);
        e.append(&shown_b);
        e.append(" (#");
        let shown_id = text::dec(id as u64);
        e.append(&shown_id);
        e.append(" has ");
        let shown_n = text::dec(lines.len() as u64);
        e.append(&shown_n);
        e.append(" lines)");
        return Err(e);
    }
    let new = text::lines(body);
    assert(lines_of(body@).len() == new@.len());
    let after = splice(&lines, a - 1, b, &new);
    let report = region_report(id, &after, a as u128, new.len());
    Ok(Edited { path, text: lines_text(&after, has_end(text)), report })
}

/// The change that inserts the lines of `body` after line `after`.
pub open spec fn insert_of(
    id: u32,
    path: Seq<char>,
    text: Seq<char>,
    after: int,
    body: Seq<char>,
) -> Result<EditedV, Seq<char>> {
    let lines = lines_of(text);
    if after > lines.len() {
        Err(
            "insert point "@ + decimal(after as nat) + " past end ("@ + decimal(lines.len())
                + " lines)"@,
        )
    } else {
        let now = spliced(lines, after, after, lines_of(body));
        Ok(
            EditedV {
                path,
                text: file_text(now, is_ended(text)),
                report: region_text(id, now, after + 1, lines_of(body).len() as int),
            },
        )
    }
}

fn make_insert(id: u32, path: String, text: &str, after: usize, body: &str) -> (r: Result<
    Edited,
    String,
>)
    ensures
        edit_answer(r) == insert_of(id, path@, text@, after as int, body@),
{
    let lines = text::lines(text);
    assert(lines_of(text@).len() == lines@.len());
    if after > lines.len() {
        let mut e = "insert point ".to_string();
        let shown = text::dec(after as u64);
        e.append(&shown);
        e.append(" past end (");
        let shown_n = text::dec(lines.len() as u64);
        e.append(&shown_n);
        e.append(" lines)");
        return Err(e);
    }
    let new = text::lines(body);
    assert(lines_of(body@).len() == new@.len());
    let now = splice(&lines, after, after, &new);
    let report = region_report(id, &now, after as u128 + 1, new.len());
    Ok(Edited { path, text: lines_text(&now, has_end(text)), report })
}

// ---------------------------------------------------------------------------
// The workspace's other tools
// ---------------------------------------------------------------------------

/// The rows of a legend: the files from `from` up to `n` with their ids.
pub open spec fn legend_rows(files: Seq<Seq<char>>, from: int, n: int) -> Seq<char>
    decreases n - from,
{
    if n <= from {
        Seq::empty()
    } else {
        legend_rows(files, from, n - 1) + "#"@ + decimal((n - 1) as nat) + "="@ + files[n - 1] + " "@
    }
}

/// The map of ids to paths for the files interned from `from` on; nothing
/// where there are none.
pub open spec fn legend_text(files: Seq<Seq<char>>, from: int) -> Seq<char> {
    if from >= files.len() {
        Seq::empty()
    } else {
        "files: "@ + legend_rows(files, from, files.len() as int) + "\n"@
    }
}

/// The extension of a path, in lower case: what follows the last dot of its
/// last part, unless that dot is the first character.
pub open spec fn ext_in(path: Seq<char>) -> Seq<char> {
    let name = path.skip(last_after(path, '/', path.len() as int));
    let dot = last_after(name, '.', name.len() as int);
    if dot <= 1 {
        Seq::empty()
    } else {
        lowered(name.skip(dot))
    }
}

/// The position after the last `c` in `s[..j]`; 0 where there is none.
pub open spec fn last_after(s: Seq<char>, c: char, j: int) -> int
    decreases j,
{
    if 0 < j <= s.len() && s[j - 1] != c {
        last_after(s, c, j - 1)
    } else {
        j
    }
}

/// The position after the last `c`; 0 where there is none.
pub fn after_last(v: &Vec<char>, c: char) -> (r: usize)
    ensures
        r == last_after(v@, c, v@.len() as int),
        r <= v@.len(),
{
    let mut j: usize = v.len();
    while j > 0 && v[j - 1] != c
        invariant
            j <= v@.len(),
            last_after(v@, c, v@.len() as int) == last_after(v@, c, j as int),
        decreases j,
    {
        j = j - 1;
    }
    j
}

/// The last part of a path.
pub open spec fn name_in(path: Seq<char>) -> Seq<char> {
    path.skip(last_after(path, '/', path.len() as int))
}

/// The last part of a path.
pub fn file_name(path: &str) -> (r: String)
    ensures
        r@ == name_in(path@),
{
    let v = text::chars_of(path);
    let k = after_last(&v, '/');
    text::text_between(&v, k, v.len())
}

/// The extension of a path, in lower case.
pub fn extension(path: &str) -> (r: String)
    ensures
        r@ == ext_in(path@),
{
    let name = text::chars_of(&file_name(path));
    let dot = after_last(&name, '.');
    if dot <= 1 {
        String::new()
    } else {
        text::lower_ascii(&text::text_between(&name, dot, name.len()))
    }
}

/// The images that a model can look at, by extension.
pub open spec fn mime_of(ext: Seq<char>) -> Option<Seq<char>> {
    if ext == "png"@ {
        Some("image/png"@)
    } else if ext == "jpg"@ || ext == "jpeg"@ {
        Some("image/jpeg"@)
    } else if ext == "webp"@ {
        Some("image/webp"@)
    } else if ext == "gif"@ {
        Some("image/gif"@)
    } else if ext == "bmp"@ {
        Some("image/bmp"@)
    } else {
        None
    }
}

fn mime(ext: &str) -> (r: Option<String>)
    ensures
        opt_text(r) == mime_of(ext@),
{
    if text::same(ext, "png") {
        Some("image/png".to_string())
    } else if text::same(ext, "jpg") || text::same(ext, "jpeg") {
        Some("image/jpeg".to_string())
    } else if text::same(ext, "webp") {
        Some("image/webp".to_string())
    } else if text::same(ext, "gif") {
        Some("image/gif".to_string())
    } else if text::same(ext, "bmp") {
        Some("image/bmp".to_string())
    } else {
        None
    }
}

/// The largest image that is attached, in bytes.
pub const MAX_IMAGE_BYTES: u64 = 6_000_000;

/// What the file system says of an image file: its size, and its bytes.
pub struct ImageFound {
    pub is_file: bool,
    pub namesakes: Vec<String>,
    pub size: Result<u64, String>,
    pub bytes: Result<Vec<u8>, String>,
}

/// An image ready to be sent.
pub struct Image {
    pub id: u32,
    pub mime: String,
    pub b64: String,
    pub bytes: usize,
}

/// What an image says.
#[verifier::ext_equal]
pub struct ImageV {
    pub id: u32,
    pub mime: Seq<char>,
    pub b64: Seq<char>,
    pub bytes: int,
}

impl View for Image {
    type V = ImageV;

    open spec fn view(&self) -> ImageV {
        ImageV { id: self.id, mime: self.mime@, b64: self.b64@, bytes: self.bytes as int }
    }
}

/// `base64`'s `STANDARD.encode`: the standard alphabet with padding. The crate
/// panics where the encoded length does not fit in `usize`.
#[verifier::external_body]
fn encode_base64(bytes: &Vec<u8>) -> (r: String)
    requires
        bytes@.len() <= usize::MAX / 4,
    ensures
        r@ == b64_of(bytes@),
{
    base64::engine::general_purpose::STANDARD.encode(bytes)
}

/// What is said of an image that is too large.
pub open spec fn too_large(n: nat) -> Seq<char> {
    "image too large: "@ + decimal(n) + " bytes (max "@ + decimal(MAX_IMAGE_BYTES as nat) + ")"@
}

fn too_large_msg(n: u64) -> (r: String)
    ensures
        r@ == too_large(n as nat),
{
    let mut e = "image too large: ".to_string();
    let shown = text::dec(n);
    e.append(&shown);
    e.append(" bytes (max ");
    let max = text::dec(MAX_IMAGE_BYTES);
    e.append(&max);
    e.append(")");
    e
}

/// The image that a resolved file is, or why it is none.
pub open spec fn image_of(
    target: Seq<char>,
    id: u32,
    path: Seq<char>,
    size: Result<u64, String>,
    bytes: Result<Vec<u8>, String>,
) -> Result<ImageV, Seq<char>> {
    match mime_of(ext_in(path)) {
        None => Err("not an image file: "@ + target + " (."@ + ext_in(path) + ")"@),
        Some(mime) => match size {
            Err(e) => Err(e@),
            Ok(n) => if n > MAX_IMAGE_BYTES {
                Err(too_large(n as nat))
            } else {
                match bytes {
                    Err(e) => Err(e@),
                    Ok(b) => if b@.len() > usize::MAX / 4 {
                        Err(too_large(b@.len()))
                    } else {
                        Ok(ImageV { id, mime, b64: b64_of(b@), bytes: b@.len() as int })
                    },
                }
            },
        },
    }
}

/// One line of an outline.
pub open spec fn sig_line(sig: (int, Seq<char>)) -> Seq<char> {
    decimal(sig.0 as nat) + ": "@ + sig.1
}

/// The lines of an outline.
pub open spec fn sig_lines(v: Seq<(int, Seq<char>)>) -> Seq<Seq<char>> {
    v.map_values(|p: (int, Seq<char>)| sig_line(p))
}

/// The outline of one file.
pub open spec fn outline_text(id: u32, path: Seq<char>, text: Seq<char>) -> Result<
    Seq<char>,
    Seq<char>,
> {
    match lang_of(ext_in(path)) {
        Some(lang) => Ok(
            "outline #"@ + decimal(id as nat) + " "@ + path + "\n"@ + joined(
                sig_lines(sigs(lang, lines_of(text), lines_of(text).len() as int)),
                "\n"@,
            ),
        ),
        None => Err("no outline for "@ + path + " — read it with R"@),
    }
}

fn outline_view(id: u32, path: &str, text: &str) -> (r: Result<String, String>)
    ensures
        answer(r) == outline_text(id, path@, text@),
{
    match outline::outline(text, &extension(path)) {
        Some(list) => {
            let mut rows: Vec<String> = Vec::new();
            let mut i: usize = 0;
            let ghost all = sig_lines(outline::sig_views(list@));
            while i < list.len()
                invariant
                    i <= list@.len(),
                    all == sig_lines(outline::sig_views(list@)),
                    texts(rows@) == all.take(i as int),
                decreases list@.len() - i,
            {
                let mut row = text::dec(list[i].0 as u64);
                row.append(": ");
                row.append(&list[i].1);
                proof {
                    assert(outline::sig_views(list@)[i as int] == (
                        list@[i as int].0 as int,
                        list@[i as int].1@,
                    ));
                    assert(all[i as int] == row@);
                    text::lemma_texts_push(rows@, row);
                    assert(all.take(i + 1) =~= all.take(i as int).push(row@));
                }
                rows.push(row);
                i = i + 1;
            }
            assert(all.take(list@.len() as int) =~= all);
            let mut out = "outline #".to_string();
            let shown = text::dec(id as u64);
            out.append(&shown);
            out.append(" ");
            out.append(path);
            out.append("\n");
            let body = text::join(&rows, "\n");
            out.append(&body);
            Ok(out)
        },
        None => {
            let mut e = "no outline for ".to_string();
            e.append(path);
            e.append(" — read it with R");
            Err(e)
        },
    }
}

/// The code map of the first `n` files of a directory, given as paths and
/// texts: the outline of each file that has one.
pub open spec fn mapped_files(w: WorkV, held: Seq<(Seq<char>, Seq<char>)>, n: int) -> (
    WorkV,
    Seq<Seq<char>>,
)
    decreases n,
{
    if n <= 0 {
        (w, Seq::empty())
    } else {
        let (w1, maps) = mapped_files(w, held, n - 1);
        let (path, text) = held[n - 1];
        match outline_text(id_in(w1.files, path), path, text) {
            Ok(t) => (interned(w1, path), maps.push(t)),
            Err(_) => (w1, maps),
        }
    }
}

impl Workspace {
    /// Replaces lines a..=b (1-indexed, inclusive) with body. The report has
    /// the fresh numbering of the touched region, so the model never works
    /// from stale lines.
    pub fn edit(&mut self, target: &str, a: usize, b: usize, body: &str, found: &Found) -> (r: Result<
        Edited,
        String,
    >)
        ensures
            ({
                let (w, at) = resolved(
                    old(self)@,
                    target@,
                    found.is_file,
                    texts(found.namesakes@),
                );
                &&& final(self)@ == w
                &&& edit_answer(r) == (match at {
                    Ok((id, path)) => match found.text {
                        Ok(t) => edit_of(id, path, t@, a as int, b as int, body@),
                        Err(e) => Err(e@),
                    },
                    Err(e) => Err(e),
                })
            }),
    {
        let (id, path) = match self.resolve(target, found.is_file, &found.namesakes) {
            Ok(p) => p,
            Err(e) => {
                return Err(e);
            },
        };
        match &found.text {
            Ok(t) => make_edit(id, path, t, a, b, body),
            Err(e) => Err(e.clone()),
        }
    }

    /// Inserts body after line `after` (0 = top of file).
    pub fn insert(&mut self, target: &str, after: usize, body: &str, found: &Found) -> (r: Result<
        Edited,
        String,
    >)
        ensures
            ({
                let (w, at) = resolved(
                    old(self)@,
                    target@,
                    found.is_file,
                    texts(found.namesakes@),
                );
                &&& final(self)@ == w
                &&& edit_answer(r) == (match at {
                    Ok((id, path)) => match found.text {
                        Ok(t) => insert_of(id, path, t@, after as int, body@),
                        Err(e) => Err(e@),
                    },
                    Err(e) => Err(e),
                })
            }),
    {
        let (id, path) = match self.resolve(target, found.is_file, &found.namesakes) {
            Ok(p) => p,
            Err(e) => {
                return Err(e);
            },
        };
        match &found.text {
            Ok(t) => make_insert(id, path, t, after, body),
            Err(e) => Err(e.clone()),
        }
    }

    /// What creating a file writes, and where. A file without content is
    /// refused: an empty payload is a message that was cut off.
    pub fn new_file(&self, path: &str, body: &str) -> (r: Result<(String, String), String>)
        ensures
            match r {
                Ok((rel, text)) => {
                    &&& body@.len() > 0
                    &&& rel@ == swapped(path@, '\\', '/')
                    &&& text@ == body@ + "\n"@
                },
                Err(e) => {
                    &&& body@.len() == 0
                    &&& e@ == "N "@ + path@
                        + " had no content — nothing was written; put the file's lines after N and end with a line that is only \".\""@
                },
            },
    {
        if text::empty(body) {
            let mut e = "N ".to_string();
            e.append(path);
            e.append(
                " had no content — nothing was written; put the file's lines after N and end with a line that is only \".\"",
            );
            return Err(e);
        }
        let mut t = body.to_owned();
        t.append("\n");
        Ok((text::replace_char(path, '\\', '/'), t))
    }

    /// Interns a file that was created and reports it.
    pub fn created(&mut self, rel: &str, body: &str) -> (r: String)
        ensures
            final(self)@ == interned(old(self)@, rel@),
            r@ == "#"@ + decimal(id_in(old(self)@.files, rel@) as nat) + " "@ + rel@ + " created ("@
                + decimal(lines_of(body@).len()) + " lines)"@,
    {
        let id = self.intern(rel);
        let mut out = "#".to_string();
        let shown = text::dec(id as u64);
        out.append(&shown);
        out.append(" ");
        out.append(rel);
        out.append(" created (");
        let (_, n) = text::line_count(body);
        let count = text::dec(n as u64);
        out.append(&count);
        out.append(" lines)");
        out
    }

    /// Records that a file was created or modified.
    pub fn mark_written(&mut self, rel: &str)
        ensures
            final(self)@ == (WorkV {
                written: with_path(old(self)@.written, rel@),
                ..old(self)@
            }),
    {
        if find_place(&self.written, rel).is_none() {
            let path = rel.to_owned();
            proof {
                text::lemma_texts_push(self.written@, path);
            }
            self.written.push(path);
        }
    }

    /// The files created or modified so far.
    pub fn written_paths(&self) -> (r: &Vec<String>)
        ensures
            texts(r@) == self@.written,
    {
        &self.written
    }

    /// Map of intern ids -> paths, for the prompt.
    pub fn legend(&self) -> (r: String)
        ensures
            r@ == legend_text(self@.files, 0),
    {
        self.legend_from(0)
    }

    /// The part of the legend for files interned from `from` on.
    pub fn legend_from(&self, from: usize) -> (r: String)
        ensures
            r@ == legend_text(self@.files, from as int),
    {
        if from >= self.files.len() {
            return String::new();
        }
        let mut s = "files: ".to_string();
        let mut i: usize = from;
        let ghost head = s@;
        assert(s@ =~= head + legend_rows(self@.files, from as int, from as int));
        while i < self.files.len()
            invariant
                from <= i <= self.files@.len(),
                s@ == head + legend_rows(self@.files, from as int, i as int),
            decreases self.files@.len() - i,
        {
            assert(self@.files[i as int] == self.files@[i as int]@);
            s.append("#");
            let shown = text::dec(i as u64);
            s.append(&shown);
            s.append("=");
            s.append(&self.files[i]);
            s.append(" ");
            assert(s@ =~= head + legend_rows(self@.files, from as int, i + 1));
            i = i + 1;
        }
        s.append("\n");
        s
    }

    /// Signature outline of a file.
    pub fn outline(&mut self, target: &str, found: &Found) -> (r: Result<String, String>)
        ensures
            ({
                let (w, at) = resolved(
                    old(self)@,
                    target@,
                    found.is_file,
                    texts(found.namesakes@),
                );
                &&& final(self)@ == w
                &&& answer(r) == (match at {
                    Ok((id, path)) => match found.text {
                        Ok(t) => outline_text(id, path, t@),
                        Err(e) => Err(e@),
                    },
                    Err(e) => Err(e),
                })
            }),
    {
        let (id, path) = match self.resolve(target, found.is_file, &found.namesakes) {
            Ok(p) => p,
            Err(e) => {
                return Err(e);
            },
        };
        match &found.text {
            Ok(t) => outline_view(id, &path, t),
            Err(e) => Err(e.clone()),
        }
    }

    /// The code map of a directory, given the paths and texts of the files in
    /// it: the outlines of the code files, in that order.
    pub fn outline_dir(&mut self, target: &str, held: &Vec<(String, String)>) -> (r: Result<
        String,
        String,
    >)
        ensures
            ({
                let (w, maps) = mapped_files(old(self)@, pairs(held@), held@.len() as int);
                &&& final(self)@ == w
                &&& answer(r) == (if maps.len() == 0 {
                    Err("no code to outline in "@ + target@)
                } else {
                    Ok(joined(maps, "\n"@))
                })
            }),
    {
        let ghost all = pairs(held@);
        let ghost before = self@;
        let mut maps: Vec<String> = Vec::new();
        let mut i: usize = 0;
        assert(texts(maps@) =~= Seq::<Seq<char>>::empty());
        while i < held.len()
            invariant
                i <= held@.len(),
                all == pairs(held@),
                (self@, texts(maps@)) == mapped_files(before, all, i as int),
            decreases held@.len() - i,
        {
            let path = &held[i].0;
            proof {
                assert(all[i as int] == (held@[i as int].0@, held@[i as int].1@));
            }
            if outline::is_code_ext(&extension(path)) {
                let id = self.intern(path);
                match outline_view(id, path, &held[i].1) {
                    Ok(t) => {
                        proof {
                            text::lemma_texts_push(maps@, t);
                        }
                        maps.push(t);
                    },
                    Err(_) => {},
                }
            }
            i += 1;
        }
        if maps.len() == 0 {
            let mut e = "no code to outline in ".to_string();
            e.append(target);
            return Err(e);
        }
        Ok(text::join(&maps, "\n"))
    }

    /// Loads an image for attaching to the next model request.
    pub fn load_image(&mut self, target: &str, found: &ImageFound) -> (r: Result<Image, String>)
        ensures
            ({
                let (w, at) = resolved(
                    old(self)@,
                    target@,
                    found.is_file,
                    texts(found.namesakes@),
                );
                &&& final(self)@ == w
                &&& (match r {
                    Ok(i) => Ok::<ImageV, Seq<char>>(i@),
                    Err(e) => Err(e@),
                }) == (match at {
                    Ok((id, path)) => image_of(target@, id, path, found.size, found.bytes),
                    Err(e) => Err(e),
                })
            }),
    {
        let (id, path) = match self.resolve(target, found.is_file, &found.namesakes) {
            Ok(p) => p,
            Err(e) => {
                return Err(e);
            },
        };
        let ext = extension(&path);
        let kind = match mime(&ext) {
            Some(m) => m,
            None => {
                let mut e = "not an image file: ".to_string();
                e.append(target);
                e.append(" (.");
                e.append(&ext);
                e.append(")");
                return Err(e);
            },
        };
        match &found.size {
            Err(e) => {
                return Err(e.clone());
            },
            Ok(n) => {
                if *n > MAX_IMAGE_BYTES {
                    return Err(too_large_msg(*n));
                }
            },
        }
        match &found.bytes {
            Err(e) => Err(e.clone()),
            Ok(bytes) => {
                if bytes.len() > usize::MAX / 4 {
                    return Err(too_large_msg(bytes.len() as u64));
                }
                let b64 = encode_base64(bytes);
                Ok(Image { id, mime: kind, b64, bytes: bytes.len() })
            },
        }
    }
}

// ---------------------------------------------------------------------------
// Laws of the workspace
// ---------------------------------------------------------------------------

/// Deleting what was inserted gives back the text, character for character.
pub proof fn deleting_an_insertion_restores_the_text(
    id: u32,
    path: Seq<char>,
    text: Seq<char>,
    after: int,
    body: Seq<char>,
)
    requires
        !text.contains('\r'),
        is_ended(text),
        0 <= after,
        lines_of(body).len() > 0,
        insert_of(id, path, text, after, body) is Ok,
    ensures
        ({
            let now = (insert_of(id, path, text, after, body)->Ok_0).text;
            let back = edit_of(id, path, now, after + 1, after + lines_of(body).len(), ""@);
            back is Ok && (back->Ok_0).text == text
        }),
{
    let lines = lines_of(text);
    let new = lines_of(body);
    let n = new.len() as int;
    let with = spliced(lines, after, after, new);
    let now = file_text(with, true);
    text::lemma_lines_hold_no_ends(text, 0);
    text::lemma_lines_hold_no_ends(body, 0);
    text::lemma_lines_rejoined(text, 0);
    assert forall|i: int| 0 <= i < with.len() implies !(#[trigger] with[i]).contains('\n') by {
        if i < after {
            assert(with[i] == lines[i]);
        } else if i < after + n {
            assert(with[i] == new[i - after]);
        } else {
            assert(with[i] == lines[i - n]);
        }
    }
    text::lemma_lines_read_chomped(with);
    let read = lines_of(now);
    reveal_strlit("\n");
    assert(is_ended(now));
    reveal_strlit("");
    assert(lines_of(""@) =~= Seq::<Seq<char>>::empty());
    let left = spliced(read, after, after + n, Seq::empty());
    assert forall|i: int| 0 <= i < lines.len() implies text::chomped(#[trigger] lines[i])
        == lines[i] by {
        if lines[i].len() > 0 && lines[i].last() == '\r' {
            assert(lines[i].contains('\r'));
        }
    }
    assert(left =~= lines);
    assert(text.skip(0) =~= text);
}

/// Interning gives every path one id and every id one path, for good: the path
/// is found under the id it got, and every id handed out before still stands
/// for the same path. A new path gets the next number.
pub proof fn ids_are_stable(w: WorkV, rel: Seq<char>)
    requires
        w.files.len() < u32::MAX,
    ensures
        same_path(interned(w, rel).files[id_in(w.files, rel) as int], rel),
        interned(w, rel).files[id_in(w.files, rel) as int] == spelled(w.files, rel),
        id_in(interned(w, rel).files, rel) == id_in(w.files, rel),
        interned(interned(w, rel), rel) == interned(w, rel),
        interned(w, rel) != w ==> id_in(w.files, rel) == w.files.len() && interned(w, rel).files
            == w.files.push(rel),
        forall|k: int|
            0 <= k < w.files.len() ==> #[trigger] interned(w, rel).files[k] == w.files[k],
{
    lemma_place_of(w.files, rel, 0);
    let now = interned(w, rel).files;
    lemma_place_of(now, rel, 0);
    if place_of(w.files, rel, 0) is None {
        assert(now[w.files.len() as int] == rel);
        match place_of(now, rel, 0) {
            Some(k) => {
                if k < w.files.len() {
                    assert(now[k] == w.files[k]);
                }
            },
            None => {},
        }
    }
}

/// Ids tell paths apart: whatever is interned in between, two paths get one id
/// exactly when they are the same path.
pub proof fn ids_tell_paths_apart(w: WorkV, p: Seq<char>, later: WorkV, q: Seq<char>)
    requires
        interned(w, p).files.is_prefix_of(later.files),
        later.files.len() < u32::MAX,
    ensures
        (id_in(w.files, p) == id_in(later.files, q)) == same_path(p, q),
{
    let mid = interned(w, p).files;
    ids_are_stable(w, p);
    let i = id_in(w.files, p) as int;
    lemma_place_of(w.files, p, 0);
    lemma_place_of(later.files, q, 0);
    assert(mid[i] == later.files[i]);
    assert forall|k: int| 0 <= k < i implies !same_path(#[trigger] later.files[k], p) by {
        assert(later.files[k] == mid[k]);
        assert(mid[k] == w.files[k]);
    }
}

/// A file resolved by its path resolves the same way by the id it got, with or
/// without the `#`.
pub proof fn an_id_resolves_like_its_path(
    w: WorkV,
    path: Seq<char>,
    namesakes: Seq<Seq<char>>,
    is_file: bool,
)
    requires
        w.files.len() < u32::MAX,
        path_in(path) is Some,
    ensures
        ({
            let rel = path_in(path)->0;
            let (after, at) = resolved(w, path, true, namesakes);
            let id = id_in(w.files, rel);
            &&& at == Ok::<(u32, Seq<char>), Seq<char>>((id, spelled(w.files, rel)))
            &&& resolved(after, decimal(id as nat), is_file, namesakes) == (after, at)
            &&& resolved(after, "#"@ + decimal(id as nat), is_file, namesakes) == (after, at)
        }),
{
    let rel = path_in(path)->0;
    let id = id_in(w.files, rel);
    let (after, at) = resolved(w, path, true, namesakes);
    ids_are_stable(w, rel);
    lemma_place_of(w.files, rel, 0);
    text::decimal_reads_back(id as nat);
    text::lemma_decimal(id as nat);
    reveal_strlit("#");
    assert("#"@ =~= seq!['#']);
    let plain = decimal(id as nat);
    let hashed = "#"@ + plain;
    assert(plain[0] != '#');
    assert(!begins(plain, "#"@)) by {
        if begins(plain, "#"@) {
            assert(plain.subrange(0, 1)[0] == '#');
        }
    }
    assert(hashed.subrange(0, 1) =~= "#"@);
    assert(hashed.skip(1) =~= plain);
    assert(after.files.len() > id);
}

/// An edit is read back: the file that is written has exactly the lines that
/// the report numbers. Left out are lines that end in a carriage return, an
/// unfinished file whose last line would be empty, and a file that loses all
/// its lines but not its end.
pub proof fn edits_are_read_back(lines: Seq<Seq<char>>, ended: bool)
    requires
        forall|i: int| 0 <= i < lines.len() ==> text::plain_line(#[trigger] lines[i]),
        ended ==> lines.len() > 0,
        !ended && lines.len() > 0 ==> lines.last().len() > 0,
    ensures
        lines_of(file_text(lines, ended)) == lines,
{
    if ended {
        text::lines_read_back(lines);
    } else {
        text::open_lines_read_back(lines);
    }
}

/// An edit touches nothing outside its range, and deleting what an insertion
/// added gives the lines back.
pub proof fn edits_touch_only_their_range(
    lines: Seq<Seq<char>>,
    a: int,
    b: int,
    new: Seq<Seq<char>>,
)
    requires
        0 <= a <= b <= lines.len(),
    ensures
        spliced(lines, a, b, new).len() == lines.len() - (b - a) + new.len(),
        spliced(lines, a, b, new).take(a) == lines.take(a),
        spliced(lines, a, b, new).skip(a + new.len()) == lines.skip(b),
        spliced(lines, a, b, new).subrange(a, a + new.len()) == new,
        spliced(spliced(lines, a, a, new), a, a + new.len(), Seq::empty()) == lines,
{
    let now = spliced(lines, a, b, new);
    assert(now.take(a) =~= lines.take(a));
    assert(now.skip(a + new.len()) =~= lines.skip(b));
    assert(now.subrange(a, a + new.len()) =~= new);
    let inserted = spliced(lines, a, a, new);
    assert(spliced(inserted, a, a + new.len(), Seq::empty()) =~= lines);
}

// ---------------------------------------------------------------------------
// Search
// ---------------------------------------------------------------------------

pub const GREP_MAX_HITS: usize = 50;

pub const GREP_LINE_WINDOW: usize = 200;

pub const GREP_DEADLINE_MS: u64 = 5_000;

pub const GREP_MAX_FILES: usize = 20_000;

pub const GREP_MAX_FILE_BYTES: u64 = 2_000_000;

/// Directories that are never searched or shown.
pub const SKIP_DIRS: [&'static str; 8] = [
    ".git",
    "target",
    "node_modules",
    ".haste",
    "__pycache__",
    "dist",
    ".venv",
    "AppData",
];

/// Whether a directory of this name is passed over.
pub open spec fn skips_dir(name: Seq<char>) -> bool {
    ||| name == ".git"@
    ||| name == "target"@
    ||| name == "node_modules"@
    ||| name == ".haste"@
    ||| name == "__pycache__"@
    ||| name == "dist"@
    ||| name == ".venv"@
    ||| name == "AppData"@
    ||| name.len() > 0 && name[0] == '.'
}

/// Whether a directory of this name is passed over: build output, caches, and
/// everything hidden.
pub fn skip_dir(name: &str) -> (r: bool)
    ensures
        r == skips_dir(name@),
{
    let dirs = SKIP_DIRS;
    let mut i: usize = 0;
    let mut listed = false;
    while i < 8
        invariant
            i <= 8,
            dirs@.len() == 8,
            listed == exists|k: int| 0 <= k < i && (#[trigger] dirs@[k])@ == name@,
        decreases 8 - i,
    {
        if text::same(dirs[i], name) {
            assert(dirs@[i as int]@ == name@);
            listed = true;
        }
        i = i + 1;
    }
    proof {
        assert(dirs@[0]@ == ".git"@ && dirs@[1]@ == "target"@ && dirs@[2]@ == "node_modules"@
            && dirs@[3]@ == ".haste"@ && dirs@[4]@ == "__pycache__"@ && dirs@[5]@ == "dist"@
            && dirs@[6]@ == ".venv"@ && dirs@[7]@ == "AppData"@);
    }
    let v = text::chars_of(name);
    listed || (v.len() > 0 && v[0] == '.')
}

/// The part of a long line around the bytes `lo..hi`: 40 bytes before and 120
/// after, widened to whole characters, with an ellipsis where text is left out.
pub open spec fn windowed(s: Seq<char>, lo: int, hi: int) -> Seq<char> {
    let from = fit(
        s,
        if lo > 40 {
            lo - 40
        } else {
            0
        },
    );
    let upto = reach(
        s,
        if hi + 120 < byte_len(s) {
            hi + 120
        } else {
            byte_len(s) as int
        },
    );
    (if from > 0 {
        "…"@
    } else {
        ""@
    }) + s.subrange(from, upto) + (if upto < s.len() {
        "…"@
    } else {
        ""@
    })
}

fn window(s: &str, lo: usize, hi: usize) -> (r: String)
    requires
        lo <= hi <= byte_len(s@),
    ensures
        r@ == windowed(s@, lo as int, hi as int),
{
    let v = text::chars_of(s);
    let total = text::bytes_in(s);
    let first: usize = if lo > 40 {
        lo - 40
    } else {
        0
    };
    let last: usize = if total - hi > 120 {
        hi + 120
    } else {
        total
    };
    let (from, _) = text::fit_chars(&v, first);
    let upto = text::reach_chars(&v, last);
    proof {
        text::lemma_fit(s@, first as int);
        text::lemma_reach(s@, 0, last as int);
        if upto < from {
            text::lemma_take_grows(s@, upto as int, from as int);
        }
    }
    let mut r = if from > 0 {
        "…".to_string()
    } else {
        "".to_string()
    };
    let part = text::text_between(&v, from, upto);
    r.append(&part);
    if upto < v.len() {
        r.append("…");
    } else {
        r.append("");
    }
    r
}

/// How a matching line is shown: whole and trimmed, or a window of it.
pub open spec fn hit_text(line: Seq<char>, lo: int, hi: int) -> Seq<char> {
    if byte_len(line) > GREP_LINE_WINDOW {
        windowed(line, lo, hi)
    } else {
        trimmed(line)
    }
}

/// The hits of one file's lines from `i` on: `#id:line:text` each, the file
/// interned at its first hit, until there are enough.
pub open spec fn scanned_lines(
    re: regex::Regex,
    w: WorkV,
    hits: Seq<Seq<char>>,
    path: Seq<char>,
    lines: Seq<Seq<char>>,
    i: int,
) -> (WorkV, Seq<Seq<char>>)
    decreases lines.len() - i,
{
    if 0 <= i < lines.len() {
        match regex_first(re, lines[i]) {
            Some((lo, hi)) => {
                let id = id_in(w.files, path);
                let hit = "#"@ + decimal(id as nat) + ":"@ + decimal((i + 1) as nat) + ":"@
                    + hit_text(lines[i], lo as int, hi as int);
                if hits.len() + 1 >= GREP_MAX_HITS {
                    (interned(w, path), hits.push(hit))
                } else {
                    scanned_lines(re, interned(w, path), hits.push(hit), path, lines, i + 1)
                }
            },
            None => scanned_lines(re, w, hits, path, lines, i + 1),
        }
    } else {
        (w, hits)
    }
}

/// The path of a file that was visited, seen from the workspace root: without a
/// leading dot, and without the root where it lies under it.
pub open spec fn from_root(root: Seq<char>, path: Seq<char>) -> Seq<char> {
    let (absolute, own) = parts_of(path);
    let (rooted, above) = parts_of(root);
    if !absolute {
        joined(
            own.skip(
                if own.len() > 0 && own[0] == "."@ {
                    1
                } else {
                    0
                },
            ),
            "/"@,
        )
    } else if rooted && above.is_prefix_of(own) {
        joined(own.skip(above.len() as int), "/"@)
    } else {
        path
    }
}

fn join_from(v: &Vec<String>, n: usize) -> (r: String)
    requires
        n <= v@.len(),
    ensures
        r@ == joined(texts(v@).skip(n as int), "/"@),
{
    let mut rest: Vec<String> = Vec::new();
    assert(texts(rest@) =~= Seq::<Seq<char>>::empty());
    copy_into(&mut rest, v, n, v.len());
    assert(texts(rest@) =~= texts(v@).skip(n as int));
    text::join(&rest, "/")
}

fn seen_from_root(root: &str, path: &str) -> (r: String)
    ensures
        r@ == from_root(root@, path@),
{
    let (absolute, own) = parts(path);
    assert(texts(own@).len() == own@.len());
    if !absolute {
        if own.len() > 0 {
            assert(texts(own@)[0] == own@[0]@);
            if text::same(&own[0], ".") {
                return join_from(&own, 1);
            }
        }
        return join_from(&own, 0);
    }
    let (rooted, above) = parts(root);
    assert(texts(above@).len() == above@.len());
    if !rooted || above.len() > own.len() {
        return path.to_owned();
    }
    let mut start: Vec<String> = Vec::new();
    assert(texts(start@) =~= Seq::<Seq<char>>::empty());
    copy_into(&mut start, &own, 0, above.len());
    assert(texts(start@) =~= texts(own@).subrange(0, above@.len() as int));
    if equal_texts(&start, &above) {
        join_from(&own, above.len())
    } else {
        path.to_owned()
    }
}

/// A search in progress: the files and directories still to visit, and the
/// hits so far.
pub struct Grep {
    re: regex::Regex,
    pat: String,
    base: String,
    stack: Vec<String>,
    hits: Vec<String>,
    scanned: usize,
    stopped: Option<String>,
}

/// The state of a search.
#[verifier::ext_equal]
pub struct GrepV {
    pub re: regex::Regex,
    pub pat: Seq<char>,
    pub base: Seq<char>,
    pub stack: Seq<Seq<char>>,
    pub hits: Seq<Seq<char>>,
    pub scanned: nat,
    pub stopped: Option<Seq<char>>,
}

impl View for Grep {
    type V = GrepV;

    closed spec fn view(&self) -> GrepV {
        GrepV {
            re: self.re,
            pat: self.pat@,
            base: self.base@,
            stack: texts(self.stack@),
            hits: texts(self.hits@),
            scanned: self.scanned as nat,
            stopped: opt_text(self.stopped),
        }
    }
}

/// What is said where a search was stopped early.
pub open spec fn stop_note(scanned: nat, seconds: Seq<char>) -> Seq<char> {
    "(grep stopped early: "@ + decimal(scanned) + " files / "@ + seconds
        + "s — narrow the target to a subdir or file)"@
}

/// What comes next in a search after `elapsed_ms`: the path to visit, or the
/// end: nothing left, enough hits, or over one of the budgets.
pub open spec fn grep_step(g: GrepV, elapsed_ms: u64, seconds: Seq<char>) -> (
    GrepV,
    Option<Seq<char>>,
) {
    if g.stack.len() == 0 {
        (g, None)
    } else {
        let rest = GrepV { stack: g.stack.drop_last(), ..g };
        if g.hits.len() >= GREP_MAX_HITS {
            (rest, None)
        } else if elapsed_ms > GREP_DEADLINE_MS || g.scanned > GREP_MAX_FILES {
            (GrepV { stopped: Some(stop_note(g.scanned, seconds)), ..rest }, None)
        } else {
            (rest, Some(g.stack.last()))
        }
    }
}

/// What a search found, as the model sees it.
pub open spec fn grep_text(g: GrepV) -> Seq<char> {
    if g.hits.len() == 0 {
        match g.stopped {
            Some(note) => "no hits for /"@ + g.pat + "/ yet "@ + note,
            None => "no hits for /"@ + g.pat + "/"@,
        }
    } else {
        match g.stopped {
            Some(note) => joined(g.hits, "\n"@) + "\n"@ + note,
            None => joined(g.hits, "\n"@),
        }
    }
}

/// Where a search starts: the resolved file, the path in the tree that the
/// target names, or the whole workspace.
pub open spec fn grep_base(
    w: WorkV,
    target: Option<Seq<char>>,
    is_file: bool,
    namesakes: Seq<Seq<char>>,
    exists: bool,
) -> (WorkV, Result<Seq<char>, Seq<char>>) {
    match target {
        Some(t) => {
            let (after, at) = resolved(w, t, is_file, namesakes);
            match at {
                Ok((_, path)) => (after, Ok(path)),
                Err(_) => if exists {
                    (after, Ok(swapped(t, '\\', '/')))
                } else {
                    (after, Err("no such target: "@ + t))
                },
            }
        },
        None => (w, Ok(""@)),
    }
}

impl Grep {
    /// Visits one directory, given what it holds. Directories that are passed
    /// over are searched all the same where the search starts in them.
    pub fn directory(&mut self, path: &str, held: Vec<String>)
        ensures
            final(self)@ == (if skips_dir(name_in(path@)) && path@ != old(self)@.base {
                old(self)@
            } else {
                GrepV { stack: old(self)@.stack + texts(held@), ..old(self)@ }
            }),
    {
        if skip_dir(&file_name(path)) && !text::same(path, &self.base) {
            return ;
        }
        let ghost stack0 = texts(self.stack@);
        copy_into(&mut self.stack, &held, 0, held.len());
        proof {
            assert(texts(held@).subrange(0, held@.len() as int) =~= texts(held@));
        }
    }

    /// Whether a file of this size is passed over; so is one whose size is not
    /// known.
    pub fn too_big(size: Option<u64>) -> (r: bool)
        ensures
            r == (match size {
                Some(n) => n > GREP_MAX_FILE_BYTES,
                None => true,
            }),
    {
        match size {
            Some(n) => n > GREP_MAX_FILE_BYTES,
            None => true,
        }
    }

    /// Visits one file, given its text; `None` where it could not be read.
    pub fn file(&mut self, ws: &mut Workspace, path: &str, text: Option<String>)
        ensures
            ({
                let g = old(self)@;
                let (w, hits) = match text {
                    Some(t) => scanned_lines(
                        g.re,
                        old(ws)@,
                        g.hits,
                        from_root(old(ws)@.root, path@),
                        lines_of(t@),
                        0,
                    ),
                    None => (old(ws)@, g.hits),
                };
                &&& final(ws)@ == w
                &&& final(self)@ == (GrepV {
                    scanned: if g.scanned < usize::MAX {
                        g.scanned + 1
                    } else {
                        g.scanned
                    },
                    hits,
                    ..g
                })
            }),
    {
        if self.scanned < usize::MAX {
            self.scanned = self.scanned + 1;
        }
        let t = match text {
            Some(t) => t,
            None => {
                return ;
            },
        };
        let lines = text::lines(&t);
        let rel = seen_from_root(&ws.root, path);
        let ghost goal = scanned_lines(self.re, ws@, texts(self.hits@), rel@, lines_of(t@), 0);
        let ghost g0 = self@;
        let mut i: usize = 0;
        let mut full = false;
        while i < lines.len() && !full
            invariant
                i <= lines@.len(),
                texts(lines@) == lines_of(t@),
                full ==> goal == (ws@, texts(self.hits@)),
                !full ==> goal == scanned_lines(
                    self.re,
                    ws@,
                    texts(self.hits@),
                    rel@,
                    lines_of(t@),
                    i as int,
                ),
                self@ == (GrepV { hits: texts(self.hits@), ..g0 }),
            decreases lines@.len() - i,
        {
            assert(texts(lines@)[i as int] == lines@[i as int]@);
            if let Some((lo, hi)) = pattern::find_first(&self.re, &lines[i]) {
                let id = ws.intern(&rel);
                let mut hit = "#".to_string();
                let shown_id = text::dec(id as u64);
                hit.append(&shown_id);
                hit.append(":");
                let shown_n = text::dec((i + 1) as u64);
                hit.append(&shown_n);
                hit.append(":");
                let shown = if text::bytes_in(&lines[i]) > GREP_LINE_WINDOW {
                    window(&lines[i], lo, hi)
                } else {
                    text::trim(&lines[i])
                };
                hit.append(&shown);
                proof {
                    text::lemma_texts_push(self.hits@, hit);
                }
                self.hits.push(hit);
                assert(texts(self.hits@).len() == self.hits@.len());
                full = self.hits.len() >= GREP_MAX_HITS;
            }
            i = i + 1;
        }
    }

    /// The next path to visit, or `None` at the end of the search. `seconds`
    /// is the time so far as it is shown in a note.
    pub fn next(&mut self, elapsed_ms: u64, seconds: &str) -> (r: Option<String>)
        ensures
            (final(self)@, opt_text(r)) == grep_step(old(self)@, elapsed_ms, seconds@),
    {
        let ghost stack0 = texts(self.stack@);
        let path = match self.stack.pop() {
            Some(p) => p,
            None => {
                return None;
            },
        };
        proof {
            assert(texts(self.stack@) =~= stack0.drop_last());
            assert(stack0.last() == path@);
            assert(texts(self.hits@).len() == self.hits@.len());
        }
        if self.hits.len() >= GREP_MAX_HITS {
            return None;
        }
        if elapsed_ms > GREP_DEADLINE_MS || self.scanned > GREP_MAX_FILES {
            let mut note = "(grep stopped early: ".to_string();
            let n = text::dec(self.scanned as u64);
            note.append(&n);
            note.append(" files / ");
            note.append(seconds);
            note.append("s — narrow the target to a subdir or file)");
            self.stopped = Some(note);
            return None;
        }
        Some(path)
    }

    /// What the search found.
    pub fn report(&self) -> (r: String)
        ensures
            r@ == grep_text(self@),
    {
        assert(texts(self.hits@).len() == self.hits@.len());
        if self.hits.len() == 0 {
            let mut out = "no hits for /".to_string();
            out.append(&self.pat);
            match &self.stopped {
                Some(note) => {
                    out.append("/ yet ");
                    out.append(note);
                },
                None => {
                    out.append("/");
                },
            }
            return out;
        }
        let mut out = text::join(&self.hits, "\n");
        if let Some(note) = &self.stopped {
            out.append("\n");
            out.append(note);
        }
        out
    }
}

impl Workspace {
    /// Starts a search. `exists` says whether the target, taken as a path,
    /// is there at all.
    pub fn grep(
        &mut self,
        pat: &str,
        target: &Option<String>,
        is_file: bool,
        namesakes: &Vec<String>,
        exists: bool,
    ) -> (r: Result<Grep, String>)
        ensures
            match regex_of(pat@) {
                Err(e) => {
                    &&& final(self)@ == old(self)@
                    &&& r matches Err(msg) && msg@ == "bad regex: "@ + regex_error_text(e)
                },
                Ok(re) => {
                    let (w, base) = grep_base(
                        old(self)@,
                        opt_text(*target),
                        is_file,
                        texts(namesakes@),
                        exists,
                    );
                    &&& final(self)@ == w
                    &&& match base {
                        Ok(path) => r matches Ok(g) && g@ == (GrepV {
                            re,
                            pat: pat@,
                            base: path,
                            stack: seq![path],
                            hits: Seq::empty(),
                            scanned: 0,
                            stopped: None,
                        }),
                        Err(e) => r matches Err(msg) && msg@ == e,
                    }
                },
            },
    {
        let re = match pattern::compile(pat) {
            Ok(re) => re,
            Err(e) => {
                let mut msg = "bad regex: ".to_string();
                let why = pattern::error_text(&e);
                msg.append(&why);
                return Err(msg);
            },
        };
        let base = match target {
            Some(t) => match self.resolve(t, is_file, namesakes) {
                Ok((_, path)) => path,
                Err(_) => {
                    if !exists {
                        let mut msg = "no such target: ".to_string();
                        msg.append(t);
                        return Err(msg);
                    }
                    text::replace_char(t, '\\', '/')
                },
            },
            None => "".to_string(),
        };
        let stack = vec![base.clone()];
        let g = Grep {
            re,
            pat: pat.to_owned(),
            base,
            stack,
            hits: Vec::new(),
            scanned: 0,
            stopped: None,
        };
        assert(texts(g.stack@) =~= seq![g.base@]);
        assert(texts(g.hits@) =~= Seq::<Seq<char>>::empty());
        Ok(g)
    }
}

/// A search never collects more than the allowed number of hits.
pub proof fn grep_hits_are_capped(
    re: regex::Regex,
    w: WorkV,
    hits: Seq<Seq<char>>,
    path: Seq<char>,
    lines: Seq<Seq<char>>,
    i: int,
)
    requires
        hits.len() < GREP_MAX_HITS,
        0 <= i,
    ensures
        scanned_lines(re, w, hits, path, lines, i).1.len() <= GREP_MAX_HITS,
        hits.is_prefix_of(scanned_lines(re, w, hits, path, lines, i).1),
        w.files.is_prefix_of(scanned_lines(re, w, hits, path, lines, i).0.files),
    decreases lines.len() - i,
{
    if i < lines.len() {
        match regex_first(re, lines[i]) {
            Some((lo, hi)) => {
                let id = id_in(w.files, path);
                let hit = "#"@ + decimal(id as nat) + ":"@ + decimal((i + 1) as nat) + ":"@
                    + hit_text(lines[i], lo as int, hi as int);
                let w1 = interned(w, path);
                assert(hits.is_prefix_of(hits.push(hit))) by {
                    assert(hits.push(hit).subrange(0, hits.len() as int) =~= hits);
                }
                assert(w.files.is_prefix_of(w1.files)) by {
                    assert(w1.files.subrange(0, w.files.len() as int) =~= w.files);
                }
                if hits.len() + 1 < GREP_MAX_HITS {
                    grep_hits_are_capped(re, w1, hits.push(hit), path, lines, i + 1);
                    let (w2, h2) = scanned_lines(re, w1, hits.push(hit), path, lines, i + 1);
                    assert(h2.subrange(0, hits.len() as int) =~= h2.subrange(
                        0,
                        hits.push(hit).len() as int,
                    ).subrange(0, hits.len() as int));
                    assert(w2.files.subrange(0, w.files.len() as int) =~= w2.files.subrange(
                        0,
                        w1.files.len() as int,
                    ).subrange(0, w.files.len() as int));
                }
            },
            None => grep_hits_are_capped(re, w, hits, path, lines, i + 1),
        }
    } else {
        assert(hits.subrange(0, hits.len() as int) =~= hits);
        assert(w.files.subrange(0, w.files.len() as int) =~= w.files);
    }
}

/// The lines from `i` on in which something matches.
pub open spec fn matching_from(re: regex::Regex, lines: Seq<Seq<char>>, i: int) -> Seq<int>
    decreases lines.len() - i,
{
    if 0 <= i < lines.len() {
        if regex_first(re, lines[i]) is Some {
            seq![i] + matching_from(re, lines, i + 1)
        } else {
            matching_from(re, lines, i + 1)
        }
    } else {
        Seq::empty()
    }
}

proof fn lemma_matching(re: regex::Regex, lines: Seq<Seq<char>>, i: int)
    requires
        0 <= i,
    ensures
        forall|j: int|
            0 <= j < matching_from(re, lines, i).len() ==> i <= (#[trigger] matching_from(
                re,
                lines,
                i,
            )[j]) < lines.len() && regex_first(re, lines[matching_from(re, lines, i)[j]]) is Some,
        forall|j: int, k: int|
            0 <= j < k < matching_from(re, lines, i).len() ==> (#[trigger] matching_from(
                re,
                lines,
                i,
            )[j]) < (#[trigger] matching_from(re, lines, i)[k]),
        forall|k: int|
            i <= k < lines.len() && regex_first(re, #[trigger] lines[k]) is Some ==> matching_from(
                re,
                lines,
                i,
            ).contains(k),
    decreases lines.len() - i,
{
    if i < lines.len() {
        lemma_matching(re, lines, i + 1);
        let rest = matching_from(re, lines, i + 1);
        let all = matching_from(re, lines, i);
        if regex_first(re, lines[i]) is Some {
            assert(all[0] == i);
            assert forall|k: int| i <= k < lines.len() && regex_first(
                re,
                #[trigger] lines[k],
            ) is Some implies all.contains(k) by {
                if k > i {
                    let j = rest.index_of(k);
                    assert(all[j + 1] == k);
                }
            }
        }
    }
}

proof fn lemma_hits(
    re: regex::Regex,
    w: WorkV,
    hits: Seq<Seq<char>>,
    path: Seq<char>,
    lines: Seq<Seq<char>>,
    i: int,
)
    requires
        hits.len() < GREP_MAX_HITS,
        w.files.len() < u32::MAX,
        0 <= i,
    ensures
        ({
            let (after, now) = scanned_lines(re, w, hits, path, lines, i);
            let found = matching_from(re, lines, i);
            &&& now.len() == (if hits.len() + found.len() < GREP_MAX_HITS {
                hits.len() + found.len()
            } else {
                GREP_MAX_HITS as nat
            })
            &&& now.take(hits.len() as int) == hits
            &&& forall|j: int|
                0 <= j < now.len() - hits.len() ==> now[hits.len() + j] == "#"@ + decimal(
                    id_in(w.files, path) as nat,
                ) + ":"@ + decimal((#[trigger] found[j] + 1) as nat) + ":"@ + hit_text(
                    lines[found[j]],
                    (regex_first(re, lines[found[j]])->0).0 as int,
                    (regex_first(re, lines[found[j]])->0).1 as int,
                )
            &&& after == (if found.len() > 0 {
                interned(w, path)
            } else {
                w
            })
        }),
    decreases lines.len() - i,
{
    let (after, now) = scanned_lines(re, w, hits, path, lines, i);
    let found = matching_from(re, lines, i);
    if i < lines.len() {
        match regex_first(re, lines[i]) {
            Some((lo, hi)) => {
                let hit = "#"@ + decimal(id_in(w.files, path) as nat) + ":"@ + decimal(
                    (i + 1) as nat,
                ) + ":"@ + hit_text(lines[i], lo as int, hi as int);
                let w1 = interned(w, path);
                let more = hits.push(hit);
                let rest = matching_from(re, lines, i + 1);
                ids_are_stable(w, path);
                assert(found =~= seq![i] + rest);
                if hits.len() + 1 >= GREP_MAX_HITS {
                    assert(now.take(hits.len() as int) =~= hits);
                } else {
                    if w1.files.len() < u32::MAX {
                        lemma_hits(re, w1, more, path, lines, i + 1);
                    } else {
                        lemma_hits_full(re, w1, more, path, lines, i + 1);
                    }
                    assert(now.take(hits.len() as int) =~= now.take(more.len() as int).take(
                        hits.len() as int,
                    ));
                    assert(more.take(hits.len() as int) =~= hits);
                    assert forall|j: int| 0 <= j < now.len() - hits.len() implies now[hits.len() + j]
                        == "#"@ + decimal(id_in(w.files, path) as nat) + ":"@ + decimal(
                        (#[trigger] found[j] + 1) as nat,
                    ) + ":"@ + hit_text(
                        lines[found[j]],
                        (regex_first(re, lines[found[j]])->0).0 as int,
                        (regex_first(re, lines[found[j]])->0).1 as int,
                    ) by {
                        if j == 0 {
                            assert(now.take(more.len() as int)[hits.len() as int] == hit);
                        } else {
                            assert(found[j] == rest[j - 1]);
                            assert(now[more.len() + (j - 1)] == now[hits.len() + j]);
                        }
                    }
                }
            },
            None => {
                lemma_hits(re, w, hits, path, lines, i + 1);
            },
        }
    } else {
        assert(now.take(hits.len() as int) =~= hits);
    }
}

proof fn lemma_hits_full(
    re: regex::Regex,
    w: WorkV,
    hits: Seq<Seq<char>>,
    path: Seq<char>,
    lines: Seq<Seq<char>>,
    i: int,
)
    requires
        hits.len() < GREP_MAX_HITS,
        place_of(w.files, path, 0) is Some,
        0 <= i,
    ensures
        ({
            let (after, now) = scanned_lines(re, w, hits, path, lines, i);
            let found = matching_from(re, lines, i);
            &&& now.len() == (if hits.len() + found.len() < GREP_MAX_HITS {
                hits.len() + found.len()
            } else {
                GREP_MAX_HITS as nat
            })
            &&& now.take(hits.len() as int) == hits
            &&& forall|j: int|
                0 <= j < now.len() - hits.len() ==> now[hits.len() + j] == "#"@ + decimal(
                    id_in(w.files, path) as nat,
                ) + ":"@ + decimal((#[trigger] found[j] + 1) as nat) + ":"@ + hit_text(
                    lines[found[j]],
                    (regex_first(re, lines[found[j]])->0).0 as int,
                    (regex_first(re, lines[found[j]])->0).1 as int,
                )
            &&& after == w
        }),
    decreases lines.len() - i,
{
    let (after, now) = scanned_lines(re, w, hits, path, lines, i);
    let found = matching_from(re, lines, i);
    if i < lines.len() {
        match regex_first(re, lines[i]) {
            Some((lo, hi)) => {
                let hit = "#"@ + decimal(id_in(w.files, path) as nat) + ":"@ + decimal(
                    (i + 1) as nat,
                ) + ":"@ + hit_text(lines[i], lo as int, hi as int);
                let more = hits.push(hit);
                let rest = matching_from(re, lines, i + 1);
                assert(interned(w, path) =~= w);
                assert(found =~= seq![i] + rest);
                if hits.len() + 1 >= GREP_MAX_HITS {
                    assert(now.take(hits.len() as int) =~= hits);
                } else {
                    lemma_hits_full(re, w, more, path, lines, i + 1);
                    assert(now.take(hits.len() as int) =~= now.take(more.len() as int).take(
                        hits.len() as int,
                    ));
                    assert(more.take(hits.len() as int) =~= hits);
                    assert forall|j: int| 0 <= j < now.len() - hits.len() implies now[hits.len() + j]
                        == "#"@ + decimal(id_in(w.files, path) as nat) + ":"@ + decimal(
                        (#[trigger] found[j] + 1) as nat,
                    ) + ":"@ + hit_text(
                        lines[found[j]],
                        (regex_first(re, lines[found[j]])->0).0 as int,
                        (regex_first(re, lines[found[j]])->0).1 as int,
                    ) by {
                        if j == 0 {
                            assert(now.take(more.len() as int)[hits.len() as int] == hit);
                        } else {
                            assert(found[j] == rest[j - 1]);
                            assert(now[more.len() + (j - 1)] == now[hits.len() + j]);
                        }
                    }
                }
            },
            None => {
                lemma_hits_full(re, w, hits, path, lines, i + 1);
            },
        }
    } else {
        assert(now.take(hits.len() as int) =~= hits);
    }
}

/// Visiting a file finds every line that matches: as many hits are added as
/// lines match, up to 50 in all, in the order of the lines; the `j`-th is
/// `#id:number:text` of the `j`-th matching line, and a line that is not too
/// long stands in it whole, trimmed. Hits found before stay.
pub proof fn every_matching_line_is_a_hit(
    re: regex::Regex,
    w: WorkV,
    hits: Seq<Seq<char>>,
    path: Seq<char>,
    lines: Seq<Seq<char>>,
)
    requires
        hits.len() < 50,
        w.files.len() < u32::MAX,
    ensures
        ({
            let (after, now) = scanned_lines(re, w, hits, path, lines, 0);
            let found = matching_from(re, lines, 0);
            &&& now.len() == (if hits.len() + found.len() < 50 {
                hits.len() + found.len()
            } else {
                50
            })
            &&& now.take(hits.len() as int) == hits
            &&& forall|j: int|
                0 <= j < now.len() - hits.len() && byte_len(lines[#[trigger] found[j]]) <= 200
                    ==> now[hits.len() + j] == "#"@ + decimal(id_in(w.files, path) as nat) + ":"@
                    + decimal((found[j] + 1) as nat) + ":"@ + trimmed(lines[found[j]])
            &&& forall|j: int|
                0 <= j < now.len() - hits.len() ==> begins(
                    now[hits.len() + j],
                    "#"@ + decimal(id_in(w.files, path) as nat) + ":"@ + decimal(
                        (#[trigger] found[j] + 1) as nat,
                    ) + ":"@,
                )
            &&& forall|k: int|
                0 <= k < lines.len() ==> (regex_first(re, #[trigger] lines[k]) is Some
                    <==> found.contains(k))
            &&& forall|j: int, k: int|
                0 <= j < k < found.len() ==> #[trigger] found[j] < #[trigger] found[k]
            &&& after == (if found.len() > 0 {
                interned(w, path)
            } else {
                w
            })
        }),
{
    lemma_hits(re, w, hits, path, lines, 0);
    lemma_matching(re, lines, 0);
    let (after, now) = scanned_lines(re, w, hits, path, lines, 0);
    let found = matching_from(re, lines, 0);
    assert forall|j: int| 0 <= j < now.len() - hits.len() implies begins(
        now[hits.len() + j],
        "#"@ + decimal(id_in(w.files, path) as nat) + ":"@ + decimal(
            (#[trigger] found[j] + 1) as nat,
        ) + ":"@,
    ) by {
        let p = "#"@ + decimal(id_in(w.files, path) as nat) + ":"@ + decimal(
            (found[j] + 1) as nat,
        ) + ":"@;
        assert(now[hits.len() + j].subrange(0, p.len() as int) =~= p);
    }
    assert forall|k: int| 0 <= k < lines.len() implies (regex_first(
        re,
        #[trigger] lines[k],
    ) is Some <==> found.contains(k)) by {
        if found.contains(k) {
            let j = found.index_of(k);
            assert(found[j] == k);
        }
    }
}

/// A line that is too long to be shown whole is shown around its match: the
/// window holds every character of the match, and is a piece of the line with an
/// ellipsis where something is left out.
pub proof fn a_window_shows_the_match(line: Seq<char>, p: int, q: int)
    requires
        0 <= p <= q <= line.len(),
        byte_len(line) > 200,
    ensures
        ({
            let shown = hit_text(
                line,
                byte_len(line.take(p)) as int,
                byte_len(line.take(q)) as int,
            );
            exists|a: int, b: int| #![trigger line.subrange(a, b)]
                0 <= a <= p && q <= b <= line.len() && shown == (if a > 0 {
                    "…"@
                } else {
                    ""@
                }) + line.subrange(a, b) + (if b < line.len() {
                    "…"@
                } else {
                    ""@
                })
        }),
{
    let lo = byte_len(line.take(p)) as int;
    let hi = byte_len(line.take(q)) as int;
    let from_b = if lo > 40 {
        lo - 40
    } else {
        0
    };
    let upto_b = if hi + 120 < byte_len(line) {
        hi + 120
    } else {
        byte_len(line) as int
    };
    let a = fit(line, from_b);
    let b = reach(line, upto_b);
    text::lemma_fit(line, from_b);
    text::lemma_reach(line, 0, upto_b);
    text::lemma_take_grows(line, p, q);
    text::lemma_take_grows(line, q, line.len() as int);
    assert(line.take(line.len() as int) =~= line);
    if a > p {
        text::lemma_take_grows(line, p, a);
    }
    if b < q {
        text::lemma_take_grows(line, b, q);
    }
    assert(hit_text(line, lo, hi) == windowed(line, lo, hi));
    let piece = line.subrange(a, b);
}

/// A search goes on until there is nothing left to visit, or there are 50 hits,
/// or it has taken more than five seconds or more than 20,000 files; only then
/// does its report carry a note. What it visits next is what was met last.
pub proof fn a_search_stops_for_cause(g: GrepV, elapsed_ms: u64, seconds: Seq<char>)
    ensures
        grep_step(g, elapsed_ms, seconds).1 is None <==> g.stack.len() == 0 || g.hits.len() >= 50
            || elapsed_ms > 5_000 || g.scanned > 20_000,
        grep_step(g, elapsed_ms, seconds).1 matches Some(path) ==> g.stack == grep_step(
            g,
            elapsed_ms,
            seconds,
        ).0.stack.push(path),
        grep_step(g, elapsed_ms, seconds).0.hits == g.hits,
        g.stopped is None ==> (grep_step(g, elapsed_ms, seconds).0.stopped is Some <==> g.stack.len()
            > 0 && g.hits.len() < 50 && (elapsed_ms > 5_000 || g.scanned > 20_000)),
{
    if g.stack.len() > 0 {
        assert(g.stack.drop_last().push(g.stack.last()) =~= g.stack);
    }
}

/// The report of a search that was not stopped is its hits, a line each, in the
/// order in which they were found.
pub proof fn a_search_reports_its_hits(g: GrepV)
    requires
        g.hits.len() > 0,
        g.hits.last().len() > 0,
        forall|i: int| 0 <= i < g.hits.len() ==> text::plain_line(#[trigger] g.hits[i]),
    ensures
        g.stopped is None ==> lines_of(grep_text(g)) == g.hits,
        g.stopped is Some && text::plain_line(g.stopped->0) && (g.stopped->0).len() > 0 ==> lines_of(
            grep_text(g),
        ) == g.hits.push(g.stopped->0),
{
    text::open_lines_read_back(g.hits);
    if let Some(note) = g.stopped {
        let all = g.hits.push(note);
        assert(all.drop_last() =~= g.hits);
        if text::plain_line(note) && note.len() > 0 {
            assert forall|i: int| 0 <= i < all.len() implies text::plain_line(#[trigger] all[i]) by {
                if i < g.hits.len() {
                    assert(all[i] == g.hits[i]);
                }
            }
            text::open_lines_read_back(all);
        }
    }
}

// ---------------------------------------------------------------------------
// Laws of reading and editing
// ---------------------------------------------------------------------------

/// A line of a read: its number, and the line, clipped if it is very long.
pub open spec fn read_row(lines: Seq<Seq<char>>, k: int) -> Seq<char> {
    decimal(k as nat) + seq![':'] + clipped(lines[k - 1], 500)
}

proof fn lemma_numbered(lines: Seq<Seq<char>>, head: Seq<char>, a: int, b: int)
    requires
        1 <= a <= b + 1,
        b <= lines.len(),
    ensures
        head + "\n"@ + numbered(lines, a, b) == joined(
            seq![head] + Seq::new((b - a + 1) as nat, |i: int| read_row(lines, a + i)),
            "\n"@,
        ) + "\n"@,
    decreases b - a + 1,
{
    let rows = seq![head] + Seq::new((b - a + 1) as nat, |i: int| read_row(lines, a + i));
    if a > b {
        assert(rows =~= seq![head]);
        assert(head + "\n"@ + numbered(lines, a, b) =~= head + "\n"@);
    } else {
        lemma_numbered(lines, head, a, b - 1);
        let before = seq![head] + Seq::new((b - a) as nat, |i: int| read_row(lines, a + i));
        assert(rows.drop_last() =~= before);
        assert(rows.last() == read_row(lines, b));
        reveal_strlit(":");
        assert(":"@ =~= seq![':']);
        assert(head + "\n"@ + numbered(lines, a, b) =~= joined(rows, "\n"@) + "\n"@);
    }
}

proof fn lemma_plain_number(n: nat)
    ensures
        !decimal(n).contains('\n'),
        decimal(n).len() > 0,
        decimal(n).last() != '\r',
{
    text::lemma_decimal(n);
    let d = decimal(n);
    assert forall|i: int| 0 <= i < d.len() implies d[i] != '\n' by {
        assert(text::is_digit(d[i]));
    }
    assert(text::is_digit(d.last()));
}

proof fn lemma_no_end_in(a: Seq<char>, b: Seq<char>)
    requires
        !a.contains('\n'),
        !b.contains('\n'),
    ensures
        !(a + b).contains('\n'),
{
    assert forall|i: int| 0 <= i < (a + b).len() implies (a + b)[i] != '\n' by {
        if i < a.len() {
            assert((a + b)[i] == a[i]);
        } else {
            assert((a + b)[i] == b[i - a.len()]);
        }
    }
}

proof fn lemma_clipped_plain(s: Seq<char>, max: int)
    requires
        text::plain_line(s),
        max >= 0,
    ensures
        text::plain_line(clipped(s, max)),
{
    if byte_len(s) > max {
        reveal_strlit("…(+");
        reveal_strlit("ch)");
        let kept = s.take(fit(s, max));
        text::lemma_fit(s, max);
        assert forall|i: int| 0 <= i < kept.len() implies kept[i] != '\n' by {
            assert(kept[i] == s[i]);
        }
        let n = (byte_len(s) - byte_len(kept)) as nat;
        lemma_plain_number(n);
        assert forall|i: int| 0 <= i < "…(+"@.len() implies "…(+"@[i] != '\n' by {}
        assert forall|i: int| 0 <= i < "ch)"@.len() implies "ch)"@[i] != '\n' by {}
        lemma_no_end_in(kept, "…(+"@);
        lemma_no_end_in(kept + "…(+"@, decimal(n));
        lemma_no_end_in(kept + "…(+"@ + decimal(n), "ch)"@);
        assert(clipped(s, max).last() == ')');
    }
}

proof fn lemma_read_row_plain(lines: Seq<Seq<char>>, k: int)
    requires
        1 <= k <= lines.len(),
        text::plain_line(lines[k - 1]),
    ensures
        text::plain_line(read_row(lines, k)),
        read_row(lines, k).len() > 0,
{
    lemma_plain_number(k as nat);
    lemma_clipped_plain(lines[k - 1], 500);
    let colon = seq![':'];
    assert(!colon.contains('\n'));
    lemma_no_end_in(decimal(k as nat), colon);
    lemma_no_end_in(decimal(k as nat) + colon, clipped(lines[k - 1], 500));
    if clipped(lines[k - 1], 500).len() == 0 {
        assert(read_row(lines, k).last() == ':');
    } else {
        assert(read_row(lines, k).last() == clipped(lines[k - 1], 500).last());
    }
}

/// A read shows the requested lines that the file has, and no others, each with
/// its own number: without a range all of them. It fails exactly where the
/// range begins behind the end of the file.
pub proof fn a_read_shows_the_requested_lines(
    id: u32,
    path: Seq<char>,
    range: Option<(usize, usize)>,
    text: Seq<char>,
)
    requires
        text::plain_line(path),
        forall|i: int|
            0 <= i < lines_of(text).len() ==> text::plain_line(#[trigger] lines_of(text)[i]),
    ensures
        ({
            let lines = lines_of(text);
            let n = lines.len() as int;
            let from = match range {
                Some((a, b)) => if a == 0 {
                    1
                } else {
                    a as int
                },
                None => 1,
            };
            let upto = match range {
                Some((a, b)) => if (b as int) < n {
                    b as int
                } else {
                    n
                },
                None => n,
            };
            let r = read_text(id, path, range, text);
            &&& r is Err <==> from > n
            &&& r is Ok && from <= upto ==> {
                let shown = lines_of(r->Ok_0);
                &&& shown.len() == 1 + (upto - from + 1)
                &&& shown[0] == "#"@ + decimal(id as nat) + " "@ + path + " "@ + decimal(
                    from as nat,
                ) + ":"@ + decimal(upto as nat) + " of "@ + decimal(n as nat)
                &&& forall|k: int|
                    from <= k <= upto ==> shown[1 + (k - from)] == decimal(k as nat) + seq![':']
                        + clipped(#[trigger] lines[k - 1], 500)
            }
        }),
{
    let lines = lines_of(text);
    let n = lines.len() as int;
    let (a, b) = read_range(range, n);
    if a <= n && a <= b {
        let head = "#"@ + decimal(id as nat) + " "@ + path + " "@ + decimal(a as nat) + ":"@
            + decimal(b as nat) + " of "@ + decimal(n as nat);
        let rows = seq![head] + Seq::new((b - a + 1) as nat, |i: int| read_row(lines, a + i));
        lemma_numbered(lines, head, a, b);
        let whole = head + "\n"@ + numbered(lines, a, b);
        reveal_strlit("\n");
        assert("\n"@ =~= seq!['\n']);
        assert(chopped(joined(rows, "\n"@) + "\n"@) =~= joined(rows, "\n"@));
        lemma_read_head(id, path, a as nat, b as nat, n as nat);
        assert forall|i: int| 0 <= i < rows.len() implies text::plain_line(#[trigger] rows[i]) by {
            if i > 0 {
                assert(text::plain_line(lines[a + i - 2]));
                lemma_read_row_plain(lines, a + i - 1);
                assert(rows[i] == read_row(lines, a + (i - 1)));
            }
        }
        assert(text::plain_line(lines[b - 1]));
        lemma_read_row_plain(lines, b);
        assert(rows.last() == read_row(lines, a + (b - a)));
        text::open_lines_read_back(rows);
        let r = read_text(id, path, range, text);
        assert(r->Ok_0 == joined(rows, "\n"@));
        assert forall|k: int| a <= k <= b implies lines_of(r->Ok_0)[1 + (k - a)] == decimal(
            k as nat,
        ) + seq![':'] + clipped(#[trigger] lines[k - 1], 500) by {
            assert(rows[1 + (k - a)] == read_row(lines, a + (k - a)));
        }
    }
}

proof fn lemma_read_head(id: u32, path: Seq<char>, a: nat, b: nat, n: nat)
    requires
        text::plain_line(path),
    ensures
        text::plain_line(
            "#"@ + decimal(id as nat) + " "@ + path + " "@ + decimal(a) + ":"@ + decimal(b)
                + " of "@ + decimal(n),
        ),
{
    reveal_strlit("#");
    reveal_strlit(" ");
    reveal_strlit(":");
    reveal_strlit(" of ");
    lemma_plain_number(id as nat);
    lemma_plain_number(a);
    lemma_plain_number(b);
    lemma_plain_number(n);
    assert forall|i: int| 0 <= i < "#"@.len() implies "#"@[i] != '\n' by {}
    assert forall|i: int| 0 <= i < " "@.len() implies " "@[i] != '\n' by {}
    assert forall|i: int| 0 <= i < ":"@.len() implies ":"@[i] != '\n' by {}
    assert forall|i: int| 0 <= i < " of "@.len() implies " of "@[i] != '\n' by {}
    let s1 = "#"@ + decimal(id as nat);
    lemma_no_end_in("#"@, decimal(id as nat));
    lemma_no_end_in(s1, " "@);
    lemma_no_end_in(s1 + " "@, path);
    lemma_no_end_in(s1 + " "@ + path, " "@);
    let s2 = s1 + " "@ + path + " "@;
    lemma_no_end_in(s2, decimal(a));
    lemma_no_end_in(s2 + decimal(a), ":"@);
    lemma_no_end_in(s2 + decimal(a) + ":"@, decimal(b));
    let s3 = s2 + decimal(a) + ":"@ + decimal(b);
    lemma_no_end_in(s3, " of "@);
    lemma_no_end_in(s3 + " of "@, decimal(n));
    assert((s3 + " of "@ + decimal(n)).last() == decimal(n).last());
}

/// An edit succeeds exactly for a range of lines that the file has. The file
/// then has the lines before the range, the lines of the body, and the lines
/// behind the range, and its last line has an end as before.
pub proof fn an_edit_replaces_its_lines(
    id: u32,
    path: Seq<char>,
    text: Seq<char>,
    a: int,
    b: int,
    body: Seq<char>,
)
    requires
        0 <= a,
        0 <= b,
        is_ended(text),
        forall|i: int|
            0 <= i < lines_of(text).len() ==> text::plain_line(#[trigger] lines_of(text)[i]),
        forall|i: int|
            0 <= i < lines_of(body).len() ==> text::plain_line(#[trigger] lines_of(body)[i]),
    ensures
        ({
            let lines = lines_of(text);
            let new = lines_of(body);
            let r = edit_of(id, path, text, a, b, body);
            &&& r is Ok <==> 1 <= a <= b <= lines.len()
            &&& r is Ok && lines.len() - (b - a + 1) + new.len() > 0 ==> {
                let e = r->Ok_0;
                let now = lines_of(e.text);
                &&& e.path == path
                &&& e.text.last() == '\n'
                &&& now.len() == lines.len() - (b - a + 1) + new.len()
                &&& forall|k: int| 1 <= k < a ==> now[k - 1] == #[trigger] lines[k - 1]
                &&& forall|k: int| 0 <= k < new.len() ==> now[a - 1 + k] == #[trigger] new[k]
                &&& forall|k: int|
                    b < k <= lines.len() ==> now[k - 1 - (b - a + 1) + new.len()]
                        == #[trigger] lines[k - 1]
            }
        }),
{
    let lines = lines_of(text);
    let new = lines_of(body);
    if 1 <= a <= b <= lines.len() {
        let after = spliced(lines, a - 1, b, new);
        edits_touch_only_their_range(lines, a - 1, b, new);
        lemma_spliced_plain(lines, a - 1, b, new);
        if after.len() > 0 {
            edits_are_read_back(after, true);
            reveal_strlit("\n");
            assert((joined(after, "\n"@) + "\n"@).last() == '\n');
            lemma_spliced_places(lines, a - 1, b, new);
        }
    }
}

proof fn lemma_spliced_places(lines: Seq<Seq<char>>, a: int, b: int, new: Seq<Seq<char>>)
    requires
        0 <= a <= b <= lines.len(),
    ensures
        forall|k: int| 1 <= k <= a ==> spliced(lines, a, b, new)[k - 1] == #[trigger] lines[k - 1],
        forall|k: int| 0 <= k < new.len() ==> spliced(lines, a, b, new)[a + k] == #[trigger] new[k],
        forall|k: int|
            b < k <= lines.len() ==> spliced(lines, a, b, new)[k - 1 - (b - a) + new.len()]
                == #[trigger] lines[k - 1],
{
}

proof fn lemma_spliced_plain(lines: Seq<Seq<char>>, a: int, b: int, new: Seq<Seq<char>>)
    requires
        0 <= a <= b <= lines.len(),
        forall|i: int| 0 <= i < lines.len() ==> text::plain_line(#[trigger] lines[i]),
        forall|i: int| 0 <= i < new.len() ==> text::plain_line(#[trigger] new[i]),
    ensures
        forall|i: int|
            0 <= i < spliced(lines, a, b, new).len() ==> text::plain_line(
                #[trigger] spliced(lines, a, b, new)[i],
            ),
{
    let now = spliced(lines, a, b, new);
    assert forall|i: int| 0 <= i < now.len() implies text::plain_line(#[trigger] now[i]) by {
        if i < a {
            assert(now[i] == lines[i]);
        } else if i < a + new.len() {
            assert(now[i] == new[i - a]);
        } else {
            assert(now[i] == lines[i - a - new.len() + b]);
        }
    }
}

/// An insertion succeeds exactly where the file has that many lines. The lines
/// of the body then stand behind line `after`, at the top of the file where that
/// is 0, and every other line stays.
pub proof fn an_insertion_adds_its_lines(
    id: u32,
    path: Seq<char>,
    text: Seq<char>,
    after: int,
    body: Seq<char>,
)
    requires
        0 <= after,
        is_ended(text),
        forall|i: int|
            0 <= i < lines_of(text).len() ==> text::plain_line(#[trigger] lines_of(text)[i]),
        forall|i: int|
            0 <= i < lines_of(body).len() ==> text::plain_line(#[trigger] lines_of(body)[i]),
    ensures
        ({
            let lines = lines_of(text);
            let new = lines_of(body);
            let r = insert_of(id, path, text, after, body);
            &&& r is Ok <==> after <= lines.len()
            &&& r is Ok && lines.len() + new.len() > 0 ==> {
                let e = r->Ok_0;
                let now = lines_of(e.text);
                &&& e.path == path
                &&& e.text.last() == '\n'
                &&& now.len() == lines.len() + new.len()
                &&& forall|k: int| 1 <= k <= after ==> now[k - 1] == #[trigger] lines[k - 1]
                &&& forall|k: int| 0 <= k < new.len() ==> now[after + k] == #[trigger] new[k]
                &&& forall|k: int|
                    after < k <= lines.len() ==> now[k - 1 + new.len()] == #[trigger] lines[k - 1]
            }
        }),
{
    let lines = lines_of(text);
    let new = lines_of(body);
    if after <= lines.len() {
        let now = spliced(lines, after, after, new);
        edits_touch_only_their_range(lines, after, after, new);
        lemma_spliced_plain(lines, after, after, new);
        if now.len() > 0 {
            edits_are_read_back(now, true);
            reveal_strlit("\n");
            assert((joined(now, "\n"@) + "\n"@).last() == '\n');
            lemma_spliced_places(lines, after, after, new);
        }
    }
}

proof fn lemma_region(lines: Seq<Seq<char>>, head: Seq<char>, lo: int, hi: int)
    requires
        1 <= lo <= hi + 1,
        hi <= lines.len(),
    ensures
        head + region(lines, lo, hi) == joined(
            seq![head] + Seq::new(
                (hi - lo + 1) as nat,
                |i: int| decimal((lo + i) as nat) + seq![':'] + lines[lo + i - 1],
            ),
            "\n"@,
        ),
    decreases hi - lo + 1,
{
    let rows = seq![head] + Seq::new(
        (hi - lo + 1) as nat,
        |i: int| decimal((lo + i) as nat) + seq![':'] + lines[lo + i - 1],
    );
    if lo > hi {
        assert(rows =~= seq![head]);
        assert(head + region(lines, lo, hi) =~= head);
    } else {
        lemma_region(lines, head, lo, hi - 1);
        let before = seq![head] + Seq::new(
            (hi - lo) as nat,
            |i: int| decimal((lo + i) as nat) + seq![':'] + lines[lo + i - 1],
        );
        assert(rows.drop_last() =~= before);
        reveal_strlit(":");
        assert(":"@ =~= seq![':']);
        assert(head + region(lines, lo, hi) =~= joined(rows, "\n"@));
    }
}

/// What is reported of a changed file: how many lines it now has, and the lines
/// of the touched region with their new numbers, from two lines before it to two
/// lines behind it, as far as the file has them.
pub proof fn a_report_renumbers_the_region(
    id: u32,
    lines: Seq<Seq<char>>,
    start: int,
    added: int,
)
    requires
        1 <= start,
        0 <= added,
        start + added - 1 <= lines.len(),
        lines.len() > 0,
        forall|i: int| 0 <= i < lines.len() ==> text::plain_line(#[trigger] lines[i]),
    ensures
        ({
            let total = lines.len() as int;
            let shown = lines_of(region_text(id, lines, start, added));
            &&& shown[0] == "ok #"@ + decimal(id as nat) + " now "@ + decimal(total as nat)
                + " lines"@
            &&& forall|k: int|
                1 <= k <= total && start - 2 <= k <= start + added + 1 ==> shown.contains(
                    decimal(k as nat) + seq![':'] + #[trigger] lines[k - 1],
                )
            &&& shown.len() <= added + 5
        }),
{
    let total = lines.len() as int;
    let lo = if start > 2 {
        start - 2
    } else {
        1
    };
    let hi = if start + added + 1 < total {
        start + added + 1
    } else {
        total
    };
    let head = "ok #"@ + decimal(id as nat) + " now "@ + decimal(total as nat) + " lines"@;
    let rows = seq![head] + Seq::new(
        (hi - lo + 1) as nat,
        |i: int| decimal((lo + i) as nat) + seq![':'] + lines[lo + i - 1],
    );
    lemma_region(lines, head, lo, hi);
    reveal_strlit("ok #");
    reveal_strlit(" now ");
    reveal_strlit(" lines");
    lemma_plain_number(id as nat);
    lemma_plain_number(total as nat);
    assert forall|i: int| 0 <= i < "ok #"@.len() implies "ok #"@[i] != '\n' by {}
    assert forall|i: int| 0 <= i < " now "@.len() implies " now "@[i] != '\n' by {}
    assert forall|i: int| 0 <= i < " lines"@.len() implies " lines"@[i] != '\n' by {}
    lemma_no_end_in("ok #"@, decimal(id as nat));
    lemma_no_end_in("ok #"@ + decimal(id as nat), " now "@);
    lemma_no_end_in("ok #"@ + decimal(id as nat) + " now "@, decimal(total as nat));
    lemma_no_end_in(
        "ok #"@ + decimal(id as nat) + " now "@ + decimal(total as nat),
        " lines"@,
    );
    assert(head.last() == 's');
    assert forall|i: int| 0 <= i < rows.len() implies text::plain_line(#[trigger] rows[i])
        && rows[i].len() > 0 by {
        if i > 0 {
            let k = lo + i - 1;
            let colon = seq![':'];
            assert(rows[i] == decimal(k as nat) + colon + lines[k - 1]);
            lemma_plain_number(k as nat);
            assert(text::plain_line(lines[k - 1]));
            assert(!colon.contains('\n'));
            lemma_no_end_in(decimal(k as nat), colon);
            lemma_no_end_in(decimal(k as nat) + colon, lines[k - 1]);
            if lines[k - 1].len() == 0 {
                assert(rows[i].last() == ':');
            } else {
                assert(rows[i].last() == lines[k - 1].last());
            }
        }
    }
    assert(rows[rows.len() - 1] == rows.last());
    text::open_lines_read_back(rows);
    assert(region_text(id, lines, start, added) == joined(rows, "\n"@));
    assert forall|k: int| 1 <= k <= total && start - 2 <= k <= start + added + 1 implies rows.contains(
        decimal(k as nat) + seq![':'] + #[trigger] lines[k - 1],
    ) by {
        assert(rows[1 + (k - lo)] == decimal(k as nat) + seq![':'] + lines[k - 1]);
    }
}

// ---------------------------------------------------------------------------
// Laws of pruning
// ---------------------------------------------------------------------------

/// How many of the first `n` lines match, or do not.
pub open spec fn matches_before(re: regex::Regex, lines: Seq<Seq<char>>, n: int, wanted: bool) -> int
    decreases n,
{
    if n <= 0 {
        0
    } else {
        matches_before(re, lines, n - 1, wanted) + (if regex_matches(re, lines[n - 1]) == wanted {
            1int
        } else {
            0int
        })
    }
}

proof fn lemma_picked(re: regex::Regex, lines: Seq<Seq<char>>, n: int, wanted: bool)
    requires
        0 <= n <= lines.len(),
    ensures
        picked(re, lines, n, wanted).len() == matches_before(re, lines, n, wanted),
        forall|k: int|
            0 <= k < n && regex_matches(re, #[trigger] lines[k]) == wanted ==> 0 <= matches_before(
                re,
                lines,
                k,
                wanted,
            ) < picked(re, lines, n, wanted).len() && picked(re, lines, n, wanted)[matches_before(
                re,
                lines,
                k,
                wanted,
            )] == lines[k],
        matches_before(re, lines, n, true) + matches_before(re, lines, n, false) == n,
    decreases n,
{
    if n > 0 {
        lemma_picked(re, lines, n - 1, wanted);
    }
}

/// Filtering by a pattern keeps, or drops, exactly the lines that match, in
/// their order: the line that has `m` such lines before it stands at place `m`,
/// and what one filter keeps is what the other drops.
pub proof fn filters_part_the_lines(re: regex::Regex, lines: Seq<Seq<char>>, k: int, wanted: bool)
    requires
        0 <= k < lines.len(),
        regex_matches(re, lines[k]) == wanted,
    ensures
        picked(re, lines, lines.len() as int, wanted)[matches_before(re, lines, k, wanted)]
            == lines[k],
        0 <= matches_before(re, lines, k, wanted) < picked(
            re,
            lines,
            lines.len() as int,
            wanted,
        ).len(),
        picked(re, lines, lines.len() as int, true).len() + picked(
            re,
            lines,
            lines.len() as int,
            false,
        ).len() == lines.len(),
{
    lemma_picked(re, lines, lines.len() as int, wanted);
    lemma_picked(re, lines, lines.len() as int, true);
    lemma_picked(re, lines, lines.len() as int, false);
}

/// `keep:RE` shows the lines that match, `drop:RE` the others; where nothing
/// matches `keep` says so, and a pattern that does not compile filters nothing.
pub proof fn keep_and_drop_filter(text: Seq<char>, pat: Seq<char>)
    requires
        trimmed("keep:"@ + pat) == "keep:"@ + pat,
        trimmed("drop:"@ + pat) == "drop:"@ + pat,
        !pat.contains('|'),
    ensures
        match regex_of(pat) {
            Ok(re) => {
                let lines = lines_of(text);
                let n = lines.len() as int;
                &&& picked(re, lines, n, true).len() > 0 ==> pruned("keep:"@ + pat, text) == joined(
                    picked(re, lines, n, true),
                    "\n"@,
                )
                &&& picked(re, lines, n, true).len() == 0 ==> pruned("keep:"@ + pat, text)
                    == "(no matching lines)"@
                &&& pruned("drop:"@ + pat, text) == joined(picked(re, lines, n, false), "\n"@)
            },
            Err(_) => pruned("keep:"@ + pat, text) == text && pruned("drop:"@ + pat, text) == text,
        },
{
    reveal_strlit("keep:");
    reveal_strlit("drop:");
    reveal_strlit("keep");
    reveal_strlit("drop");
    reveal_strlit("head_tail");
    reveal_strlit("first_failure");
    reveal_strlit("errors_only");
    lemma_one_stage("keep:"@ + pat, text);
    lemma_one_stage("drop:"@ + pat, text);
    lemma_stage_name("keep"@, pat);
    lemma_stage_name("drop"@, pat);
    assert("keep:"@ + pat =~= "keep"@ + seq![':'] + pat);
    assert("drop:"@ + pat =~= "drop"@ + seq![':'] + pat);
    assert("keep"@[0] == 'k' && "drop"@[0] == 'd');
    assert("head_tail"@[0] == 'h' && "first_failure"@[0] == 'f' && "errors_only"@[0] == 'e');
}

proof fn lemma_stage_name(name: Seq<char>, args: Seq<char>)
    requires
        !name.contains(':'),
    ensures
        cut(name + seq![':'] + args, ':') == Some((name, args)),
{
    let s = name + seq![':'] + args;
    text::lemma_upto(s, ':', 0);
    let j = text::upto(s, ':', 0);
    assert(s[name.len() as int] == ':');
    if j < name.len() {
        assert(s[j] == name[j]);
        assert(name.contains(':'));
    }
    assert(s.take(j) =~= name);
    assert(s.skip(j + 1) =~= args);
}

proof fn lemma_one_stage(stage: Seq<char>, text: Seq<char>)
    requires
        !stage.contains('|'),
        trimmed(stage) == stage,
    ensures
        pruned(stage, text) == pruned_stage(stage, text),
{
    text::lemma_upto(stage, '|', 0);
    let j = text::upto(stage, '|', 0);
    if j < stage.len() {
        assert(stage.contains('|'));
    }
    assert(stage.subrange(0, stage.len() as int) =~= stage);
    assert(pieces_of(stage, '|') =~= seq![stage]);
    reveal_with_fuel(pruned_by, 2);
}

proof fn lemma_pruned_shift(stages: Seq<Seq<char>>, first: Seq<char>, n: int, text: Seq<char>)
    requires
        0 <= n <= stages.len(),
    ensures
        pruned_by(seq![first] + stages, n + 1, text) == pruned_by(
            stages,
            n,
            pruned_stage(trimmed(first), text),
        ),
    decreases n,
{
    let all = seq![first] + stages;
    if n == 0 {
        reveal_with_fuel(pruned_by, 2);
        assert(all[0] == first);
    } else {
        lemma_pruned_shift(stages, first, n - 1, text);
        assert(all[n] == stages[n - 1]);
    }
}

/// Stages are applied one after the other, from left to right: `a|b` prunes by
/// `a`, and what is left by `b`.
pub proof fn stages_are_chained(first: Seq<char>, rest: Seq<char>, text: Seq<char>)
    requires
        !first.contains('|'),
        trimmed(first) == first,
    ensures
        pruned(first + seq!['|'] + rest, text) == pruned(rest, pruned(first, text)),
{
    let chain = first + seq!['|'] + rest;
    lemma_one_stage(first, text);
    text::lemma_upto(chain, '|', 0);
    let j = text::upto(chain, '|', 0);
    assert(chain[first.len() as int] == '|');
    if j < first.len() {
        assert(chain[j] == first[j]);
        assert(first.contains('|'));
    }
    assert(chain.subrange(0, j) =~= first);
    text::lemma_pieces_skip(chain, '|', j + 1);
    assert(chain.skip(j + 1) =~= rest);
    let stages = pieces_of(rest, '|');
    assert(pieces_of(chain, '|') == seq![first] + stages);
    lemma_pruned_shift(stages, first, stages.len() as int, text);
}

/// A long text keeps its first `head` and its last `tail` lines, and between them
/// one line that says how many were left out; a text that is hardly longer stays
/// whole.
pub proof fn the_middle_is_left_out(text: Seq<char>, head: int, tail: int)
    requires
        0 < head,
        0 < tail,
        lines_of(text).len() > 0,
        lines_of(text).last().len() > 0,
        forall|i: int|
            0 <= i < lines_of(text).len() ==> text::plain_line(#[trigger] lines_of(text)[i]),
    ensures
        ({
            let lines = lines_of(text);
            let n = lines.len() as int;
            let shown = lines_of(head_and_tail(text, head, tail));
            &&& n <= head + tail + 1 ==> head_and_tail(text, head, tail) == text
            &&& n > head + tail + 1 ==> {
                &&& shown.len() == head + 1 + tail
                &&& shown[head] == "…("@ + decimal((n - head - tail) as nat) + " lines elided)…"@
                &&& forall|k: int| 0 <= k < head ==> shown[k] == #[trigger] lines[k]
                &&& forall|k: int|
                    n - tail <= k < n ==> shown[k - (n - tail) + head + 1] == #[trigger] lines[k]
            }
        }),
{
    let lines = lines_of(text);
    let n = lines.len() as int;
    if n > head + tail + 1 {
        let note = "…("@ + decimal((n - head - tail) as nat) + " lines elided)…"@;
        let top = lines.take(head);
        let end = lines.skip(n - tail);
        let rows = top.push(note) + end;
        text::lemma_joined_add(top.push(note), end, "\n"@);
        assert(top.push(note).drop_last() =~= top);
        assert(head_and_tail(text, head, tail) =~= joined(rows, "\n"@));
        reveal_strlit("…(");
        reveal_strlit(" lines elided)…");
        lemma_plain_number((n - head - tail) as nat);
        assert forall|i: int| 0 <= i < "…("@.len() implies "…("@[i] != '\n' by {}
        assert forall|i: int| 0 <= i < " lines elided)…"@.len() implies " lines elided)…"@[i]
            != '\n' by {}
        lemma_no_end_in("…("@, decimal((n - head - tail) as nat));
        lemma_no_end_in("…("@ + decimal((n - head - tail) as nat), " lines elided)…"@);
        assert(note.last() == '…');
        assert forall|i: int| 0 <= i < rows.len() implies text::plain_line(#[trigger] rows[i]) by {
            if i < head {
                assert(rows[i] == lines[i]);
            } else if i > head {
                assert(rows[i] == lines[i - head - 1 + n - tail]);
            }
        }
        assert(rows.last() == lines.last());
        text::open_lines_read_back(rows);
    }
}

/// `head_tail:a,b` is the number of lines kept at either end, and `head_tail`
/// alone 20 and 10.
pub proof fn the_ends_are_chosen(a: usize, b: usize, text: Seq<char>)
    ensures
        pruned("head_tail:"@ + decimal(a as nat) + ","@ + decimal(b as nat), text) == head_and_tail(
            text,
            a as int,
            b as int,
        ),
        pruned("head_tail"@, text) == head_and_tail(text, 20, 10),
{
    reveal_strlit("head_tail:");
    reveal_strlit("head_tail");
    reveal_strlit(",");
    reveal_strlit("");
    text::lemma_decimal(a as nat);
    text::lemma_decimal(b as nat);
    text::decimal_reads_back(a as nat);
    text::decimal_reads_back(b as nat);
    let x = decimal(a as nat);
    let y = decimal(b as nat);
    let name = "head_tail"@;
    let args = x + ","@ + y;
    let stage = "head_tail:"@ + x + ","@ + y;
    assert(stage =~= name + seq![':'] + args);
    assert forall|i: int| 0 <= i < name.len() implies name[i] != ':' && name[i] != '|' by {}
    lemma_stage_name(name, args);
    assert forall|i: int| 0 <= i < args.len() implies args[i] != '|' by {
        if i < x.len() {
            assert(args[i] == x[i] && text::is_digit(x[i]));
        } else if i > x.len() {
            assert(args[i] == y[i - x.len() - 1] && text::is_digit(y[i - x.len() - 1]));
        }
    }
    assert forall|i: int| 0 <= i < stage.len() implies stage[i] != '|' by {
        if i < name.len() {
            assert(stage[i] == name[i]);
        } else if i > name.len() {
            assert(stage[i] == args[i - name.len() - 1]);
        }
    }
    assert(stage[0] == 'h');
    assert(stage.last() == y.last());
    assert(text::is_digit(y[y.len() - 1]));
    assert(text::is_digit(x[0]) && text::is_digit(y[0]) && text::is_digit(x[x.len() - 1]));
    lemma_trimmed_whole(stage);
    lemma_trimmed_whole(x);
    lemma_trimmed_whole(y);
    lemma_trimmed_whole(name);
    lemma_one_stage(stage, text);
    lemma_one_stage(name, text);
    text::lemma_upto(args, ',', 0);
    let j = text::upto(args, ',', 0);
    assert(args[x.len() as int] == ',');
    if j < x.len() {
        assert(args[j] == x[j] && text::is_digit(x[j]));
    }
    assert(args.take(j) =~= x);
    assert(args.skip(j + 1) =~= y);
    text::lemma_upto(name, ':', 0);
    let m = text::upto(name, ':', 0);
    if m < name.len() {
        assert(name[m] != ':');
    }
    let none = ""@;
    text::lemma_upto(none, ',', 0);
}

proof fn lemma_trimmed_whole(s: Seq<char>)
    requires
        s.len() > 0,
        !text::is_space(s[0]),
        !text::is_space(s.last()),
    ensures
        trimmed(s) == s,
{
    assert(s.skip(0) =~= s);
    assert(s.take(s.len() as int) =~= s);
}

proof fn lemma_first_hit(re: regex::Regex, lines: Seq<Seq<char>>, i: int)
    requires
        0 <= i,
    ensures
        match first_hit(re, lines, i) {
            Some(k) => i <= k < lines.len() && regex_matches(re, lines[k]) && forall|m: int|
                i <= m < k ==> !regex_matches(re, #[trigger] lines[m]),
            None => forall|m: int| i <= m < lines.len() ==> !regex_matches(re, #[trigger] lines[m]),
        },
    decreases lines.len() - i,
{
    if i < lines.len() && !regex_matches(re, lines[i]) {
        lemma_first_hit(re, lines, i + 1);
    }
}

/// `first_failure` shows a text from its first failing line on, 25 lines of it,
/// and says how many follow; a text without one keeps five lines at either end.
pub proof fn the_first_failure_is_shown(text: Seq<char>, re: regex::Regex, i: int)
    requires
        regex_of(FAILURE@) == Ok::<regex::Regex, regex::Error>(re),
        0 <= i <= lines_of(text).len(),
        forall|m: int| 0 <= m < i ==> !regex_matches(re, #[trigger] lines_of(text)[m]),
        i < lines_of(text).len() ==> regex_matches(re, lines_of(text)[i]),
    ensures
        ({
            let lines = lines_of(text);
            let n = lines.len() as int;
            &&& i == n ==> failure_part(text) == head_and_tail(text, 5, 5)
            &&& i < n <= i + 25 ==> failure_part(text) == joined(lines.skip(i), "\n"@)
            &&& i + 25 < n ==> failure_part(text) == joined(lines.subrange(i, i + 25), "\n"@)
                + "\n…("@ + decimal((n - i - 25) as nat) + " more lines)"@
        }),
{
    let lines = lines_of(text);
    lemma_first_hit(re, lines, 0);
    match first_hit(re, lines, 0) {
        Some(k) => {
            if k < i {
                assert(!regex_matches(re, lines[k]));
            }
            if i < k && i < lines.len() {
                assert(!regex_matches(re, lines[i]));
            }
        },
        None => {
            if i < lines.len() {
                assert(!regex_matches(re, lines[i]));
            }
        },
    }
    if i < lines.len() {
        assert(lines.subrange(i, lines.len() as int) =~= lines.skip(i));
    }
}

// ---------------------------------------------------------------------------
// Laws of names
// ---------------------------------------------------------------------------

/// A path that is a file resolves to itself; a bare name that is none resolves to
/// the one file of that name, and where there are none or several, or the name
/// has directories, nothing is guessed. An id nobody handed out names no file.
pub proof fn names_resolve_without_guessing(
    w: WorkV,
    target: Seq<char>,
    namesakes: Seq<Seq<char>>,
    id: u32,
)
    requires
        path_in(target) is Some,
        w.files.len() < u32::MAX,
    ensures
        resolved(w, target, true, namesakes).1 is Ok,
        same_path((resolved(w, target, true, namesakes).1->Ok_0).1, path_in(target)->0),
        namesakes.len() == 1 && !(path_in(target)->0).contains('/') ==> resolved(
            w,
            target,
            false,
            namesakes,
        ).1 is Ok && same_path((resolved(w, target, false, namesakes).1->Ok_0).1, namesakes[0]),
        namesakes.len() != 1 || (path_in(target)->0).contains('/') ==> resolved(
            w,
            target,
            false,
            namesakes,
        ).1 is Err && resolved(w, target, false, namesakes).0 == w,
        id >= w.files.len() ==> resolved(w, decimal(id as nat), true, namesakes).1 is Err,
        id < w.files.len() ==> resolved(w, decimal(id as nat), false, namesakes).1 == Ok::<
            (u32, Seq<char>),
            Seq<char>,
        >((id, w.files[id as int])),
{
    let rel = path_in(target)->0;
    ids_are_stable(w, rel);
    lemma_place_of(w.files, rel, 0);
    if namesakes.len() == 1 {
        ids_are_stable(w, namesakes[0]);
        lemma_place_of(w.files, namesakes[0], 0);
    }
    let plain = decimal(id as nat);
    text::decimal_reads_back(id as nat);
    text::lemma_decimal(id as nat);
    reveal_strlit("#");
    assert("#"@ =~= seq!['#']);
    assert(text::is_digit(plain[0]));
    assert(!begins(plain, "#"@)) by {
        if begins(plain, "#"@) {
            assert(plain.subrange(0, 1)[0] == '#');
        }
    }
}

proof fn lemma_legend_row(files: Seq<Seq<char>>, from: int, n: int, k: int)
    requires
        0 <= from <= k < n <= files.len(),
    ensures
        exists|at: int| #[trigger]
            text::occurs_at(
                legend_rows(files, from, n),
                "#"@ + decimal(k as nat) + "="@ + files[k] + " "@,
                at,
            ),
    decreases n - from,
{
    let row = "#"@ + decimal(k as nat) + "="@ + files[k] + " "@;
    let rows = legend_rows(files, from, n);
    let before = legend_rows(files, from, n - 1);
    if k == n - 1 {
        let at = before.len() as int;
        assert(rows.subrange(at, at + row.len()) =~= row);
        assert(text::occurs_at(rows, row, at));
    } else {
        lemma_legend_row(files, from, n - 1, k);
        let at = choose|at: int| #[trigger] text::occurs_at(before, row, at);
        assert(rows.subrange(at, at + row.len()) =~= before.subrange(at, at + row.len()));
        assert(text::occurs_at(rows, row, at));
    }
}

/// The legend names every file that was interned from `from` on by its id; there
/// is none where there are no such files.
pub proof fn the_legend_names_every_file(files: Seq<Seq<char>>, from: int, k: int)
    requires
        0 <= from <= k < files.len(),
    ensures
        exists|at: int| #[trigger]
            text::occurs_at(
                legend_text(files, from),
                "#"@ + decimal(k as nat) + "="@ + files[k] + " "@,
                at,
            ),
        legend_text(files, files.len() as int).len() == 0,
{
    let n = files.len() as int;
    lemma_legend_row(files, from, n, k);
    let row = "#"@ + decimal(k as nat) + "="@ + files[k] + " "@;
    let rows = legend_rows(files, from, n);
    let at = choose|at: int| #[trigger] text::occurs_at(rows, row, at);
    let head = "files: "@;
    let all = legend_text(files, from);
    assert(all.subrange(head.len() + at, head.len() + at + row.len()) =~= rows.subrange(
        at,
        at + row.len(),
    ));
    assert(text::occurs_at(all, row, head.len() + at));
}

/// An image is attached exactly where its extension is that of an image and it
/// has at most six million bytes; what is attached is all of it.
pub proof fn images_are_attached_whole(
    target: Seq<char>,
    id: u32,
    path: Seq<char>,
    size: u64,
    bytes: Vec<u8>,
)
    requires
        bytes@.len() <= usize::MAX / 4,
    ensures
        ({
            let ext = ext_in(path);
            let r = image_of(target, id, path, Ok(size), Ok(bytes));
            &&& r is Ok <==> size <= 6_000_000 && (ext == "png"@ || ext == "jpg"@ || ext == "jpeg"@
                || ext == "webp"@ || ext == "gif"@ || ext == "bmp"@)
            &&& r matches Ok(i) ==> i.id == id && i.b64 == b64_of(bytes@) && i.bytes == bytes@.len()
        }),
{
}

/// The extension of `dir/name.ext` is `ext`, in lower case, and its name is
/// `name.ext`; a hidden file without another dot has none.
pub proof fn paths_come_apart(dir: Seq<char>, name: Seq<char>, ext: Seq<char>)
    requires
        name.len() > 0,
        !name.contains('/'),
        !ext.contains('/'),
        !ext.contains('.'),
    ensures
        name_in(dir + seq!['/'] + name) == name,
        name_in(name) == name,
        ext_in(dir + seq!['/'] + (name + seq!['.'] + ext)) == lowered(ext),
        !name.contains('.') ==> ext_in(dir + seq!['/'] + name) == Seq::<char>::empty() && ext_in(
            dir + seq!['/'] + (seq!['.'] + name),
        ) == Seq::<char>::empty(),
{
    let p = dir + seq!['/'] + name;
    lemma_after_last(dir + seq!['/'], name, '/');
    assert(p.skip(dir.len() + 1int) =~= name);
    lemma_no_last(name, '/', name.len() as int);
    assert(name.skip(0) =~= name);
    let full = name + seq!['.'] + ext;
    assert forall|i: int| 0 <= i < full.len() implies full[i] != '/' by {
        if i < name.len() {
            assert(full[i] == name[i]);
        } else if i > name.len() {
            assert(full[i] == ext[i - name.len() - 1]);
        }
    }
    let q = dir + seq!['/'] + full;
    lemma_after_last(dir + seq!['/'], full, '/');
    assert(q.skip(dir.len() + 1int) =~= full);
    lemma_after_last(name + seq!['.'], ext, '.');
    assert(full =~= (name + seq!['.']) + ext);
    assert(full.skip(name.len() + 1int) =~= ext);
    if !name.contains('.') {
        lemma_no_last(name, '.', name.len() as int);
        let hidden = seq!['.'] + name;
        assert forall|i: int| 0 <= i < hidden.len() implies hidden[i] != '/' by {
            if i > 0 {
                assert(hidden[i] == name[i - 1]);
            }
        }
        lemma_after_last(dir + seq!['/'], hidden, '/');
        assert((dir + seq!['/'] + hidden).skip(dir.len() + 1int) =~= hidden);
        lemma_after_last(seq!['.'], name, '.');
    }
}

proof fn lemma_no_last(s: Seq<char>, c: char, j: int)
    requires
        0 <= j <= s.len(),
        !s.contains(c),
    ensures
        last_after(s, c, j) == 0,
    decreases j,
{
    if j > 0 {
        assert(s[j - 1] != c);
        lemma_no_last(s, c, j - 1);
    }
}

proof fn lemma_after_last(a: Seq<char>, b: Seq<char>, c: char)
    requires
        a.len() > 0,
        a.last() == c,
        !b.contains(c),
    ensures
        last_after(a + b, c, (a + b).len() as int) == a.len(),
{
    lemma_after_last_from(a, b, c, b.len() as int);
}

proof fn lemma_after_last_from(a: Seq<char>, b: Seq<char>, c: char, k: int)
    requires
        a.len() > 0,
        a.last() == c,
        !b.contains(c),
        0 <= k <= b.len(),
    ensures
        last_after(a + b, c, a.len() + k) == a.len(),
    decreases k,
{
    if k == 0 {
        assert((a + b)[a.len() - 1] == a.last());
    } else {
        assert((a + b)[a.len() + k - 1] == b[k - 1]);
        assert(b[k - 1] != c);
        lemma_after_last_from(a, b, c, k - 1);
    }
}

/// A command line is handed to its shell whole, as the last argument: to PowerShell
/// or cmd where the shell is one of them, else to sh.
pub proof fn commands_go_to_their_shell(shell: Seq<char>, line: Seq<char>)
    ensures
        shell_argv(shell, line).len() >= 3,
        shell_argv(shell, line).last() == line,
        shell == "powershell"@ ==> shell_argv(shell, line)[0] == "powershell"@ && shell_argv(
            shell,
            line,
        )[shell_argv(shell, line).len() - 2] == "-Command"@,
        shell == "cmd"@ ==> shell_argv(shell, line) == seq!["cmd"@, "/C"@, line],
        shell != "powershell"@ && shell != "cmd"@ ==> shell_argv(shell, line) == seq![
            "sh"@,
            "-c"@,
            line,
        ],
{
    reveal_strlit("powershell");
    reveal_strlit("cmd");
    assert("powershell"@.len() == 10 && "cmd"@.len() == 3);
}

/// An outline names its file and has a row for every declaration, which starts with
/// the number of its line; a file whose language is not known has none, and the
/// answer names it.
pub proof fn an_outline_has_a_row_for_each(id: u32, path: Seq<char>, text: Seq<char>, i: int)
    ensures
        lang_of(ext_in(path)) is None ==> outline_text(id, path, text) is Err && text::holds(
            outline_text(id, path, text)->Err_0,
            path,
        ),
        lang_of(ext_in(path)) is Some ==> {
            let found = sigs(lang_of(ext_in(path))->0, lines_of(text), lines_of(text).len() as int);
            let rows = sig_lines(found);
            &&& outline_text(id, path, text) == Ok::<Seq<char>, Seq<char>>(
                "outline #"@ + decimal(id as nat) + seq![' '] + path + seq!['\n'] + joined(
                    rows,
                    seq!['\n'],
                ),
            )
            &&& rows.len() == found.len()
            &&& 0 <= i < rows.len() ==> rows[i] == decimal(found[i].0 as nat) + seq![':', ' ']
                + found[i].1
        },
{
    reveal_strlit(" ");
    reveal_strlit("\n");
    reveal_strlit(": ");
    assert(" "@ =~= seq![' ']);
    assert("\n"@ =~= seq!['\n']);
    assert(": "@ =~= seq![':', ' ']);
    let e = "no outline for "@ + path + " — read it with R"@;
    text::found_where_it_first_stands(e, path, 0);
    let k = "no outline for "@.len() as int;
    assert(e.skip(k).take(path.len() as int) =~= path);
}

/// Every file whose language is known is mapped, and no other: the map has one part
/// for each, in their order.
pub proof fn every_code_file_is_mapped(w: WorkV, held: Seq<(Seq<char>, Seq<char>)>, n: int, i: int)
    requires
        0 <= i < n <= held.len(),
        lang_of(ext_in(held[i].0)) is Some,
    ensures
        exists|k: int|
            0 <= k < mapped_files(w, held, n).1.len() && text::holds(
                #[trigger] mapped_files(w, held, n).1[k],
                held[i].0,
            ),
    decreases n,
{
    let (w1, maps) = mapped_files(w, held, n - 1);
    let now = mapped_files(w, held, n).1;
    if i == n - 1 {
        let (path, text) = held[i];
        let id = id_in(w1.files, path);
        an_outline_has_a_row_for_each(id, path, text, 0);
        let t = outline_text(id, path, text)->Ok_0;
        text::found_where_it_first_stands(t, path, 0);
        let k = ("outline #"@ + decimal(id as nat) + seq![' ']).len() as int;
        assert(t.skip(k).take(path.len() as int) =~= path);
        assert(now[maps.len() as int] == t);
    } else {
        every_code_file_is_mapped(w, held, n - 1, i);
        let k = choose|k: int| 0 <= k < maps.len() && text::holds(#[trigger] maps[k], held[i].0);
        assert(now[k] == maps[k]);
    }
}

/// Where no file has a known language the map is empty and no file gets a number.
pub proof fn other_files_are_not_mapped(w: WorkV, held: Seq<(Seq<char>, Seq<char>)>, n: int)
    requires
        0 <= n <= held.len(),
        forall|i: int| 0 <= i < n ==> lang_of(ext_in((#[trigger] held[i]).0)) is None,
    ensures
        mapped_files(w, held, n) == (w, Seq::<Seq<char>>::empty()),
    decreases n,
{
    if n > 0 {
        other_files_are_not_mapped(w, held, n - 1);
        assert(lang_of(ext_in(held[n - 1].0)) is None);
    }
}

/// Where a search looks: everywhere without a target, in the file that the target
/// resolves to, or under the directory of that name; a target that is neither is
/// named in the refusal.
pub proof fn searches_look_where_they_are_told(
    w: WorkV,
    t: Seq<char>,
    is_file: bool,
    namesakes: Seq<Seq<char>>,
    exists: bool,
)
    ensures
        grep_base(w, None, is_file, namesakes, exists) == (
            w,
            Ok::<Seq<char>, Seq<char>>(Seq::empty()),
        ),
        ({
            let (after, at) = resolved(w, t, is_file, namesakes);
            let base = grep_base(w, Some(t), is_file, namesakes, exists);
            &&& base.0 == after
            &&& at is Ok ==> base.1 is Ok && base.1->Ok_0 == (at->Ok_0).1
            &&& at is Err && exists && !t.contains('\\') ==> base.1 == Ok::<Seq<char>, Seq<char>>(t)
            &&& at is Err && !exists ==> base.1 is Err && text::ends(base.1->Err_0, t)
        }),
{
    reveal_strlit("");
    assert(""@ =~= Seq::<char>::empty());
    if !t.contains('\\') {
        assert forall|i: int| 0 <= i < t.len() implies t[i] != '\\' by {
            assert(t.contains(t[i]));
        }
        assert(swapped(t, '\\', '/') =~= t);
    }
    let e = "no such target: "@ + t;
    assert(e.subrange(e.len() - t.len(), e.len() as int) =~= t);
}

proof fn lemma_parts_plain(v: Seq<Seq<char>>, n: int)
    requires
        0 <= n <= v.len(),
        forall|i: int| 0 <= i < n ==> (#[trigger] v[i]).len() > 0 && v[i] != "."@,
    ensures
        parts_upto(v, n) == v.take(n),
    decreases n,
{
    if n > 0 {
        lemma_parts_plain(v, n - 1);
        assert(v[n - 1].len() > 0);
        assert(v.take(n - 1).push(v[n - 1]) =~= v.take(n));
    } else {
        assert(v.take(0) =~= Seq::<Seq<char>>::empty());
    }
}

/// A path seen from the root is relative to it: the names below the root where it
/// lies under it, and the path as it is where it lies elsewhere. A relative path stays
/// as it is.
pub proof fn paths_are_seen_from_the_root(root: Seq<Seq<char>>, names: Seq<Seq<char>>, other: Seq<char>)
    requires
        root.len() > 0,
        names.len() > 0,
        forall|i: int|
            0 <= i < root.len() ==> (#[trigger] root[i]).len() > 0 && root[i] != "."@
                && !root[i].contains('/'),
        forall|i: int|
            0 <= i < names.len() ==> (#[trigger] names[i]).len() > 0 && names[i] != "."@
                && !names[i].contains('/'),
    ensures
        ({
            let slash = seq!['/'];
            let top = slash + joined(root, slash);
            let below = joined(names, slash);
            &&& from_root(top, top + slash + below) == below
            &&& from_root(top, below) == below
            &&& from_root(below, top) == top
        }),
{
    reveal_strlit("/");
    reveal_strlit(".");
    let slash = seq!['/'];
    assert("/"@ =~= slash);
    let none = Seq::<char>::empty();
    let top = slash + joined(root, slash);
    let below = joined(names, slash);
    lemma_rooted(root);
    lemma_relative(names);
    let both = root + names;
    assert forall|i: int| 0 <= i < both.len() implies (#[trigger] both[i]).len() > 0 && both[i]
        != "."@ && !both[i].contains('/') by {
        if i < root.len() {
            assert(both[i] == root[i]);
        } else {
            assert(both[i] == names[i - root.len()]);
        }
    }
    lemma_rooted(both);
    text::lemma_joined_add(root, names, slash);
    assert(slash + joined(both, slash) =~= top + slash + below);
    assert(both.skip(root.len() as int) =~= names);
    assert(names.skip(0) =~= names);
    assert(root.is_prefix_of(both)) by {
        assert(both.subrange(0, root.len() as int) =~= root);
    }
}

proof fn lemma_rooted(v: Seq<Seq<char>>)
    requires
        v.len() > 0,
        forall|i: int|
            0 <= i < v.len() ==> (#[trigger] v[i]).len() > 0 && v[i] != "."@ && !v[i].contains('/'),
    ensures
        parts_of(seq!['/'] + joined(v, seq!['/'])) == (true, v),
{
    let slash = seq!['/'];
    let empty = Seq::<char>::empty();
    let all = seq![empty] + v;
    assert forall|i: int| 0 <= i < all.len() implies !(#[trigger] all[i]).contains('/') by {
        if i > 0 {
            assert(all[i] == v[i - 1]);
        }
    }
    text::pieces_come_apart_again(all, '/');
    text::lemma_joined_add(seq![empty], v, slash);
    let one = seq![empty];
    assert(one.drop_last() =~= Seq::<Seq<char>>::empty());
    assert(joined(one, slash) =~= empty);
    assert(joined(all, slash) =~= slash + joined(v, slash));
    lemma_parts_after_root(all, v, v.len() as int);
    assert(v.take(v.len() as int) =~= v);
}

proof fn lemma_parts_after_root(all: Seq<Seq<char>>, v: Seq<Seq<char>>, n: int)
    requires
        all == seq![Seq::<char>::empty()] + v,
        0 <= n <= v.len(),
        forall|i: int| 0 <= i < v.len() ==> (#[trigger] v[i]).len() > 0 && v[i] != "."@,
    ensures
        parts_upto(all, n + 1) == v.take(n),
    decreases n,
{
    if n > 0 {
        lemma_parts_after_root(all, v, n - 1);
        assert(all[n] == v[n - 1]);
        assert(v.take(n - 1).push(v[n - 1]) =~= v.take(n));
    } else {
        reveal_with_fuel(parts_upto, 2);
        assert(all[0] == Seq::<char>::empty());
        assert(v.take(0) =~= Seq::<Seq<char>>::empty());
    }
}

proof fn lemma_relative(v: Seq<Seq<char>>)
    requires
        v.len() > 0,
        forall|i: int|
            0 <= i < v.len() ==> (#[trigger] v[i]).len() > 0 && v[i] != "."@ && !v[i].contains('/'),
    ensures
        parts_of(joined(v, seq!['/'])) == (false, v),
{
    text::pieces_come_apart_again(v, '/');
    lemma_parts_plain(v, v.len() as int);
    assert(v.take(v.len() as int) =~= v);
    if v.len() > 1 {
        text::lemma_joined_front(v, seq!['/']);
    } else {
        assert(v.drop_last() =~= Seq::<Seq<char>>::empty());
    }
    let s = joined(v, seq!['/']);
    assert(v[0].len() > 0);
    assert(s[0] == v[0][0]);
    assert(v[0].contains(v[0][0]));
}

/// Clipping keeps the start of a text, whole characters up to the limit in bytes, and
/// says how many bytes it left out; a text within the limit stands as it is.
pub proof fn clipping_says_what_it_left_out(kept: Seq<char>, rest: Seq<char>, max: int)
    requires
        max >= 0,
        rest.len() > 0,
        byte_len(kept) <= max < byte_len(kept + seq![rest[0]]),
    ensures
        clipped(kept + rest, max) == kept + "…(+"@ + decimal(byte_len(rest)) + "ch)"@,
        clipped(kept, max) == kept,
{
    let s = kept + rest;
    let n = kept.len() as int;
    text::lemma_byte_len_add(kept, rest);
    text::lemma_byte_len_add(kept, seq![rest[0]]);
    let after = rest.skip(1);
    assert(rest =~= seq![rest[0]] + after);
    text::lemma_byte_len_add(seq![rest[0]], after);
    text::lemma_fit(s, max);
    assert(s.take(n) =~= kept);
    assert(s.take(n + 1) =~= kept + seq![rest[0]]);
    let f = fit(s, max);
    if f > n {
        text::lemma_take_grows(s, n + 1, f);
    }
    assert(f == n);
}

/// What a walk passes over: build output, caches, and everything hidden; nothing else.
pub proof fn hidden_and_built_directories_are_skipped(name: Seq<char>)
    ensures
        name.len() > 0 && name[0] == '.' ==> skips_dir(name),
        skips_dir("target"@),
        skips_dir("node_modules"@),
        skips_dir("__pycache__"@),
        skips_dir("dist"@),
        skips_dir("AppData"@),
        name.len() > 0 && name[0] != '.' && name != "target"@ && name != "node_modules"@ && name
            != "__pycache__"@ && name != "dist"@ && name != "AppData"@ ==> !skips_dir(name),
{
    reveal_strlit(".git");
    reveal_strlit(".haste");
    reveal_strlit(".venv");
    assert(".git"@[0] == '.' && ".haste"@[0] == '.' && ".venv"@[0] == '.');
}

/// A leading `./` says nothing: the path seen from the root is the one without it.
pub proof fn a_leading_dot_says_nothing(root: Seq<char>, names: Seq<Seq<char>>)
    requires
        names.len() > 0,
        forall|i: int|
            0 <= i < names.len() ==> (#[trigger] names[i]).len() > 0 && names[i] != "."@
                && !names[i].contains('/'),
    ensures
        from_root(root, seq!['.', '/'] + joined(names, seq!['/'])) == joined(names, seq!['/']),
{
    reveal_strlit("/");
    reveal_strlit(".");
    let slash = seq!['/'];
    assert("/"@ =~= slash);
    let dot = seq!['.'];
    assert("."@ =~= dot);
    let all = seq![dot] + names;
    assert forall|i: int| 0 <= i < all.len() implies !(#[trigger] all[i]).contains('/') by {
        if i > 0 {
            assert(all[i] == names[i - 1]);
        } else {
            assert(all[i] == dot);
        }
    }
    text::pieces_come_apart_again(all, '/');
    text::lemma_joined_add(seq![dot], names, slash);
    assert(seq![dot].drop_last() =~= Seq::<Seq<char>>::empty());
    assert(joined(seq![dot], slash) =~= dot);
    let path = seq!['.', '/'] + joined(names, slash);
    assert(joined(all, slash) =~= path);
    lemma_parts_after_dot(all, names, names.len() as int);
    assert(names.take(names.len() as int) =~= names);
    assert(all[0] == dot);
    assert(all.skip(1) =~= names);
    assert(path[0] == '.');
}

proof fn lemma_parts_after_dot(all: Seq<Seq<char>>, v: Seq<Seq<char>>, n: int)
    requires
        all == seq![seq!['.']] + v,
        0 <= n <= v.len(),
        forall|i: int| 0 <= i < v.len() ==> (#[trigger] v[i]).len() > 0 && v[i] != "."@,
    ensures
        parts_upto(all, n + 1) == seq![seq!['.']] + v.take(n),
    decreases n,
{
    if n > 0 {
        lemma_parts_after_dot(all, v, n - 1);
        assert(all[n] == v[n - 1]);
        assert((seq![seq!['.']] + v.take(n - 1)).push(v[n - 1]) =~= seq![seq!['.']] + v.take(n));
    } else {
        reveal_with_fuel(parts_upto, 2);
        assert(all[0] == seq!['.']);
        assert(parts_upto(all, 1) =~= seq![seq!['.']] + v.take(0));
    }
}

} // verus!
