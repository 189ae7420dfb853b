//! The rules of the persistent shell daemon: commands go in as base64 on
//! stdin, output comes back terminated by a sentinel line carrying the exit
//! code. Anything suspicious (timeout, end of output, a failed write) kills
//! the daemon and the caller falls back to the one-shot spawn.

use crate::text;
use crate::text::decimal;
use crate::text::parsed_i32;
use crate::text::stripped;
use crate::text::trimmed;
use crate::text::trimmed_end;
use vstd::prelude::*;

verus! {

/// The start of the line that ends a command's output.
pub const SENTINEL: &'static str = "<<HASTE:DONE";

/// Daemons kept per workspace; a burst of subagents beyond this pays one-shot.
pub const POOL_MAX: usize = 4;

/// The in-shell driver loop. The command runs as `& {scriptblock} 2>&1`, not
/// through Invoke-Expression: there, errors raised inside the expression would
/// bypass to the host's stderr. The child scope also mirrors one-shot
/// semantics: cd and environment changes never persist between calls. Exit
/// code: $LASTEXITCODE for native programs; any error record -> 1.
pub const DRIVER: &'static str = "[Console]::OutputEncoding=[Text.Encoding]::UTF8; \
    while($true){ $l=[Console]::In.ReadLine(); if($null -eq $l){break}; \
    $global:LASTEXITCODE=0; $c=0; $Error.Clear(); \
    try{ $b=[Text.Encoding]::UTF8.GetString([Convert]::FromBase64String($l)); \
    & ([ScriptBlock]::Create($b)) 2>&1 | Out-String -Stream | Write-Output; \
    if($LASTEXITCODE){$c=$LASTEXITCODE} elseif($Error.Count){$c=1} } \
    catch { $_ | Out-String | Write-Output; $c=1 }; \
    Write-Output ('<<HASTE:DONE '+$c+'>>') }";

// ---------------------------------------------------------------------------
// Base64
// ---------------------------------------------------------------------------

/// The letter of the standard alphabet for a value below 64.
pub open spec fn b64_letter(n: int) -> char {
    if n < 26 {
        ('A' as u32 + n) as char
    } else if n < 52 {
        ('a' as u32 + (n - 26)) as char
    } else if n < 62 {
        ('0' as u32 + (n - 52)) as char
    } else if n == 62 {
        '+'
    } else {
        '/'
    }
}

/// Byte `i` of `d`, 0 past its end.
pub open spec fn byte_or_zero(d: Seq<u8>, i: int) -> int {
    if 0 <= i < d.len() {
        d[i] as int
    } else {
        0
    }
}

/// The four letters of up to three bytes: 24 bits, six per letter, the most
/// significant first; `=` where a byte is missing.
pub open spec fn b64_group(d: Seq<u8>) -> Seq<char> {
    let n = byte_or_zero(d, 0) * 65536 + byte_or_zero(d, 1) * 256 + byte_or_zero(d, 2);
    seq![
        b64_letter(n / 262144),
        b64_letter(n / 4096 % 64),
        if d.len() > 1 {
            b64_letter(n / 64 % 64)
        } else {
            '='
        },
        if d.len() > 2 {
            b64_letter(n % 64)
        } else {
            '='
        },
    ]
}

/// Standard base64 of `d`, with padding.
pub open spec fn b64_of(d: Seq<u8>) -> Seq<char>
    decreases d.len(),
{
    if d.len() == 0 {
        Seq::empty()
    } else if d.len() <= 3 {
        b64_group(d)
    } else {
        b64_group(d.take(3)) + b64_of(d.skip(3))
    }
}

fn letter(n: u32) -> (c: char)
    requires
        n < 64,
    ensures
        c == b64_letter(n as int),
{
    if n < 26 {
        (65u8 + n as u8) as char
    } else if n < 52 {
        (97u8 + (n - 26) as u8) as char
    } else if n < 62 {
        (48u8 + (n - 52) as u8) as char
    } else if n == 62 {
        '+'
    } else {
        '/'
    }
}

/// Standard base64.
pub fn b64(data: &[u8]) -> (r: String)
    ensures
        r@ == b64_of(data@),
{
    let mut out = String::new();
    let mut i: usize = 0;
    let ghost all = data@;
    assert(all.skip(0) =~= all);
    while i < data.len()
        invariant
            i <= data.len(),
            all == data@,
            out@ + b64_of(all.skip(i as int)) == b64_of(all),
        decreases data.len() - i,
    {
        let ghost rest = all.skip(i as int);
        let ghost out0 = out@;
        let left: usize = data.len() - i;
        let b0: u32 = data[i] as u32;
        let b1: u32 = if left > 1 {
            data[i + 1] as u32
        } else {
            0
        };
        let b2: u32 = if left > 2 {
            data[i + 2] as u32
        } else {
            0
        };
        let n: u32 = b0 * 65536 + b1 * 256 + b2;
        let c0 = letter(n / 262144);
        let c1 = letter(n / 4096 % 64);
        let c2 = if left > 1 {
            letter(n / 64 % 64)
        } else {
            '='
        };
        let c3 = if left > 2 {
            letter(n % 64)
        } else {
            '='
        };
        out.push(c0);
        out.push(c1);
        out.push(c2);
        out.push(c3);
        proof {
            let group = if left <= 3 {
                rest
            } else {
                rest.take(3)
            };
            assert(b64_group(group) =~= seq![c0, c1, c2, c3]);
            assert(out@ =~= out0 + b64_group(group));
            if left <= 3 {
                assert(all.skip(all.len() as int) =~= Seq::<u8>::empty());
                assert(out@ + Seq::<char>::empty() =~= out@);
            } else {
                assert(rest.skip(3) =~= all.skip(i + 3));
                assert((out0 + b64_group(group)) + b64_of(rest.skip(3)) =~= out0 + (b64_group(group)
                    + b64_of(rest.skip(3))));
            }
        }
        i = if left <= 3 {
            data.len()
        } else {
            i + 3
        };
    }
    proof {
        assert(all.skip(all.len() as int) =~= Seq::<u8>::empty());
        assert(out@ + Seq::<char>::empty() =~= out@);
    }
    out
}

/// Base64 of `n` bytes is four letters for every three bytes begun.
pub proof fn b64_length(d: Seq<u8>)
    ensures
        b64_of(d).len() == (d.len() + 2) / 3 * 4,
    decreases d.len(),
{
    if d.len() > 3 {
        b64_length(d.skip(3));
    }
}

// ---------------------------------------------------------------------------
// Replies
// ---------------------------------------------------------------------------

/// What one line of the daemon's output is.
pub enum Reply {
    /// The end of the command, with its exit code.
    Done(i32),
    /// A line of the command's own output.
    Output(String),
}

/// `s` without the pairs `>>` at its end.
pub open spec fn without_marks(s: Seq<char>) -> Seq<char>
    decreases s.len(),
{
    if s.len() >= 2 && s[s.len() - 1] == '>' && s[s.len() - 2] == '>' {
        without_marks(s.take(s.len() - 2))
    } else {
        s
    }
}

/// The exit code that follows the sentinel; -1 where none can be read.
pub open spec fn exit_code(rest: Seq<char>) -> int {
    match parsed_i32(trimmed(without_marks(trimmed(rest)))) {
        Some(n) => n,
        None => -1,
    }
}

fn strip_marks(s: &str) -> (r: String)
    ensures
        r@ == without_marks(s@),
{
    let v = text::chars_of(s);
    let mut n: usize = v.len();
    assert(s@.take(s@.len() as int) =~= s@);
    while n >= 2 && v[n - 1] == '>' && v[n - 2] == '>'
        invariant
            n <= v@.len(),
            v@ == s@,
            without_marks(s@) == without_marks(s@.take(n as int)),
        decreases n,
    {
        assert(s@.take(n as int).take(n - 2) =~= s@.take(n - 2));
        n = n - 2;
    }
    let r = text::text_between(&v, 0, n);
    assert(r@ =~= s@.take(n as int));
    r
}

/// Reads one line of the daemon's output.
pub fn read_reply(line: &str) -> (r: Reply)
    ensures
        match stripped(trimmed_end(line@), SENTINEL@) {
            Some(rest) => r matches Reply::Done(c) && c == exit_code(rest),
            None => r matches Reply::Output(t) && t@ == trimmed_end(line@),
        },
{
    let t = text::trim_end(line);
    match text::strip_prefix(&t, SENTINEL) {
        Some(rest) => {
            let number = text::trim(&strip_marks(&text::trim(&rest)));
            match text::parse_i32(&number) {
                Some(n) => Reply::Done(n),
                None => Reply::Done(-1),
            }
        },
        None => Reply::Output(t),
    }
}

// ---------------------------------------------------------------------------
// Runs
// ---------------------------------------------------------------------------

/// How one attempt on a daemon ended.
pub enum Outcome {
    /// The sentinel came: the output and the exit code.
    Finished(String, i32),
    /// The watchdog killed it: the command itself timed out.
    TimedOut(String),
    /// The process died on its own (stale daemon, crash).
    Died,
}

/// What to do after an attempt.
pub enum Next {
    /// The command is done; keep the daemon in the pool or kill it.
    Return { output: String, code: i32, keep: bool },
    /// Start a fresh daemon and try once more, with this many retries left.
    Respawn { retries: u32 },
    /// The daemon path is broken here: fall back to a one-shot spawn.
    GiveUp,
}

/// What is reported of a command that was killed after `timeout_ms`.
pub open spec fn killed_text(partial: Seq<char>, timeout_ms: u64) -> Seq<char> {
    partial + (if partial.len() == 0 {
        ""@
    } else {
        "\n"@
    }) + "(killed after "@ + decimal(timeout_ms as nat) + "ms)"@
}

/// How many retries a run starts with: a pooled daemon can have died while
/// idle, so it gets one retry on a fresh process; a fresh one gets none.
pub fn first_retries(pooled: bool) -> (r: u32)
    ensures
        r == (if pooled {
            1u32
        } else {
            0u32
        }),
{
    if pooled {
        1
    } else {
        0
    }
}

/// Decides what follows an attempt to run a command through a daemon, given
/// the retries left and how many daemons of this workspace the pool holds.
/// A timeout is never retried, and a dead daemon only while retries are left.
pub fn run(retries: u32, pool_size: usize, outcome: Outcome, timeout_ms: u64) -> (r: Next)
    ensures
        match outcome {
            Outcome::Finished(out, c) => r matches Next::Return { output, code, keep } && output@
                == out@ && code == c && keep == (pool_size < POOL_MAX),
            Outcome::TimedOut(partial) => r matches Next::Return { output, code, keep } && output@
                == killed_text(partial@, timeout_ms) && code == -1 && !keep,
            Outcome::Died => if retries == 0 {
                r is GiveUp
            } else {
                r matches Next::Respawn { retries: left } && left == retries - 1
            },
        },
{
    match outcome {
        Outcome::Finished(output, code) => Next::Return { output, code, keep: pool_size < POOL_MAX },
        Outcome::TimedOut(partial) => {
            let mut output = partial;
            if text::empty(&output) {
                output.append("");
            } else {
                output.append("\n");
            }
            output.append("(killed after ");
            let ms = text::dec(timeout_ms);
            output.append(&ms);
            output.append("ms)");
            Next::Return { output, code: -1, keep: false }
        },
        Outcome::Died => if retries == 0 {
            Next::GiveUp
        } else {
            Next::Respawn { retries: retries - 1 }
        },
    }
}

/// The six bits that a letter of base64 stands for; none for the padding.
pub open spec fn b64_value(c: char) -> int {
    if 'A' <= c <= 'Z' {
        c as int - 'A' as int
    } else if 'a' <= c <= 'z' {
        c as int - 'a' as int + 26
    } else if '0' <= c <= '9' {
        c as int - '0' as int + 52
    } else if c == '+' {
        62
    } else if c == '/' {
        63
    } else {
        0
    }
}

/// The bytes that four letters stand for: three, less one for each padding.
#[verifier::opaque]
pub open spec fn b64_bytes(g: Seq<char>) -> Seq<u8> {
    let n = b64_value(g[0]) * 262144 + b64_value(g[1]) * 4096 + b64_value(g[2]) * 64 + b64_value(
        g[3],
    );
    if g[2] == '=' {
        seq![(n / 65536) as u8]
    } else if g[3] == '=' {
        seq![(n / 65536) as u8, (n / 256 % 256) as u8]
    } else {
        seq![(n / 65536) as u8, (n / 256 % 256) as u8, (n % 256) as u8]
    }
}

/// The bytes that a base64 text stands for.
pub open spec fn b64_read(s: Seq<char>) -> Seq<u8>
    decreases s.len(),
{
    if s.len() < 4 {
        Seq::empty()
    } else {
        b64_bytes(s.take(4)) + b64_read(s.skip(4))
    }
}

proof fn lemma_letter(n: int)
    requires
        0 <= n < 64,
    ensures
        b64_value(b64_letter(n)) == n,
        b64_letter(n) != '=',
{
}

proof fn lemma_sixes(n: int)
    requires
        0 <= n < 0x100_0000,
    ensures
        0 <= n / 262144 < 64,
        n == n / 262144 * 262144 + n / 4096 % 64 * 4096 + n / 64 % 64 * 64 + n % 64,
{
    let x = n / 64;
    let y = n / 4096;
    let z = n / 262144;
    assert(y == x / 64);
    assert(z == y / 64);
    assert(n == 64 * x + n % 64);
    assert(x == 64 * y + x % 64);
    assert(y == 64 * z + y % 64);
}

proof fn lemma_eights(a: int, b: int, c: int)
    requires
        0 <= a < 256,
        0 <= b < 256,
        0 <= c < 256,
    ensures
        ({
            let n = a * 65536 + b * 256 + c;
            &&& 0 <= n < 0x100_0000
            &&& n / 65536 == a
            &&& n / 256 % 256 == b
            &&& n % 256 == c
            &&& c == 0 ==> n % 64 == 0
            &&& b == 0 && c == 0 ==> n / 64 % 64 == 0
        }),
{
    let n = a * 65536 + b * 256 + c;
    assert(n / 256 == a * 256 + b);
    if c == 0 {
        assert(n == 64 * (a * 1024 + b * 4));
        if b == 0 {
            assert(n / 64 == a * 1024);
            assert(n / 64 == 64 * (a * 16));
        }
    }
}

proof fn lemma_group(d: Seq<u8>)
    requires
        1 <= d.len() <= 3,
    ensures
        b64_bytes(b64_group(d)) == d,
{
    reveal(b64_bytes);
    let a = byte_or_zero(d, 0);
    let b = byte_or_zero(d, 1);
    let c = byte_or_zero(d, 2);
    let n = a * 65536 + b * 256 + c;
    lemma_eights(a, b, c);
    lemma_sixes(n);
    let g = b64_group(d);
    let p = n / 262144;
    let q = n / 4096 % 64;
    let r = n / 64 % 64;
    let t = n % 64;
    lemma_letter(p);
    lemma_letter(q);
    lemma_letter(r);
    lemma_letter(t);
    assert(g[0] == b64_letter(p));
    assert(g[1] == b64_letter(q));
    assert(b64_value('=') == 0);
    assert(b64_value(g[2]) == r);
    assert(b64_value(g[3]) == t);
    assert(b64_bytes(g) =~= d);
}

/// Base64 reads back: what a command was encoded to stands for its bytes, all of
/// them and in their order.
pub proof fn base64_reads_back(d: Seq<u8>)
    ensures
        b64_read(b64_of(d)) == d,
    decreases d.len(),
{
    if d.len() == 0 {
    } else if d.len() <= 3 {
        lemma_group(d);
        let g = b64_group(d);
        assert(g.take(4) =~= g);
        assert(g.skip(4) =~= Seq::<char>::empty());
        assert(b64_read(g.skip(4)) =~= Seq::<u8>::empty());
        assert(b64_read(g) =~= b64_bytes(g.take(4)) + b64_read(g.skip(4)));
        assert(d + Seq::<u8>::empty() =~= d);
    } else {
        let first = d.take(3);
        let rest = d.skip(3);
        lemma_group(first);
        base64_reads_back(rest);
        let s = b64_group(first) + b64_of(rest);
        assert(s.take(4) =~= b64_group(first));
        assert(s.skip(4) =~= b64_of(rest));
        assert(b64_read(s) =~= first + rest);
        assert(first + rest =~= d);
    }
}

proof fn lemma_signed_ends(n: int)
    requires
        i32::MIN <= n <= i32::MAX,
    ensures
        ({
            let d = text::signed_decimal(n);
            &&& d.len() > 0
            &&& text::is_digit(d.last())
            &&& d[0] == '-' || text::is_digit(d[0])
            &&& trimmed(d) == d
            &&& without_marks(d) == d
        }),
{
    reveal_strlit("-");
    let d = text::signed_decimal(n);
    if n < 0 {
        text::lemma_decimal((-n) as nat);
        assert(d.last() == decimal((-n) as nat).last());
        assert(d[0] == '-');
    } else {
        text::lemma_decimal(n as nat);
        assert(d =~= decimal(n as nat));
        assert(text::is_digit(d[0]));
        assert(text::is_digit(d[d.len() - 1]));
    }
    let none = Seq::<char>::empty();
    text::trimming_takes_the_space_off(none, d, none);
    assert(none + d + none =~= d);
}

proof fn lemma_code(n: int)
    requires
        i32::MIN <= n <= i32::MAX,
    ensures
        exit_code(seq![' '] + (text::signed_decimal(n) + ">>"@)) == n,
{
    reveal_strlit(">>");
    lemma_signed_ends(n);
    text::signed_numbers_read_back(n);
    let d = text::signed_decimal(n);
    let none = Seq::<char>::empty();
    let code = d + ">>"@;
    let rest = seq![' '] + code;
    assert(code[0] == d[0] && code.last() == '>');
    text::trimming_takes_the_space_off(seq![' '], code, none);
    assert(rest + none =~= rest);
    assert(trimmed(rest) == code);
    assert(code.take(code.len() - 2) =~= d);
    assert(without_marks(code) == without_marks(d));
}

/// The line that ends a command carries its exit code, which is read whatever
/// white space the line ends in; where no code stands, -1 is read.
pub proof fn the_exit_code_is_read(n: int, b: Seq<char>)
    requires
        i32::MIN <= n <= i32::MAX,
        forall|k: int| 0 <= k < b.len() ==> text::is_space(#[trigger] b[k]),
    ensures
        ({
            let line = "<<HASTE:DONE "@ + text::signed_decimal(n) + ">>"@ + b;
            let rest = stripped(trimmed_end(line), SENTINEL@);
            rest is Some && exit_code(rest->0) == n
        }),
        exit_code(b) == -1,
{
    let d = text::signed_decimal(n);
    let s = "<<HASTE:DONE "@ + d + ">>"@;
    lemma_code(n);
    assert(stripped(trimmed_end(s + b), SENTINEL@) == Some(seq![' '] + (d + ">>"@))) by {
        reveal_strlit("<<HASTE:DONE ");
        reveal_strlit("<<HASTE:DONE");
        reveal_strlit(">>");
        assert(s.last() == '>');
        assert(s[0] == '<');
        text::trimming_takes_the_space_off(Seq::<char>::empty(), s, b);
        assert(s.skip(12) =~= seq![' '] + (d + ">>"@));
        assert(s.subrange(0, 12) =~= "<<HASTE:DONE"@);
    }
    assert(exit_code(b) == -1) by {
        let none = Seq::<char>::empty();
        text::lemma_blank(b);
        text::lemma_blank(none);
        assert(without_marks(none) == none);
    }
}

/// What is reported of a killed command is its output first, then a line that says
/// when it was killed.
pub proof fn a_killed_command_shows_its_output(partial: Seq<char>, timeout_ms: u64)
    ensures
        ({
            let last = "(killed after "@ + decimal(timeout_ms as nat) + "ms)"@;
            &&& partial.len() > 0 ==> killed_text(partial, timeout_ms) == partial + seq!['\n'] + last
            &&& killed_text(Seq::empty(), timeout_ms) == last
        }),
{
    reveal_strlit("\n");
    reveal_strlit("");
    let last = "(killed after "@ + decimal(timeout_ms as nat) + "ms)"@;
    assert("\n"@ =~= seq!['\n']);
    assert(killed_text(partial, timeout_ms) =~= partial + (if partial.len() == 0 {
        ""@
    } else {
        "\n"@
    }) + last);
    assert(killed_text(Seq::empty(), timeout_ms) =~= last);
}

} // verus!
