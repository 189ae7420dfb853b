//! Text as sequences of characters: the vocabulary of every contract in this
//! crate, and the functions that compute it.
//!
//! The model of a `&str` or a `String` is its view, a `Seq<char>`. Each
//! function here has a spec function beside it that says what it returns.

use vstd::prelude::*;
use vstd::utf8::encode_scalar;
use vstd::utf8::encode_utf8;

verus! {

// ---------------------------------------------------------------------------
// What is believed of std
// ---------------------------------------------------------------------------

/// `String::push` appends one character to the end of the text.
pub assume_specification[ String::push ](s: &mut String, c: char)
    ensures
        final(s)@ == old(s)@.push(c),
;

/// `==` on string slices holds exactly when both hold the same characters.
pub assume_specification[ <str as PartialEq<str>>::eq ](a: &str, b: &str) -> (r: bool)
    ensures
        r == (a@ == b@),
;

// ---------------------------------------------------------------------------
// Views of collections of text
// ---------------------------------------------------------------------------

/// The texts held by a sequence of strings.
pub open spec fn texts(v: Seq<String>) -> Seq<Seq<char>> {
    v.map_values(|s: String| s@)
}

/// The text held by an optional string.
pub open spec fn opt_text(o: Option<String>) -> Option<Seq<char>> {
    match o {
        Some(s) => Some(s@),
        None => None,
    }
}

pub proof fn lemma_texts_push(v: Seq<String>, s: String)
    ensures
        texts(v.push(s)) == texts(v).push(s@),
{
    assert(texts(v.push(s)) =~= texts(v).push(s@));
}

// ---------------------------------------------------------------------------
// Characters
// ---------------------------------------------------------------------------

/// The characters with the Unicode property White_Space.
pub open spec fn is_space(c: char) -> bool {
    let n = c as u32;
    ||| 0x9 <= n <= 0xD
    ||| n == 0x20
    ||| n == 0x85
    ||| n == 0xA0
    ||| n == 0x1680
    ||| 0x2000 <= n <= 0x200A
    ||| n == 0x2028
    ||| n == 0x2029
    ||| n == 0x202F
    ||| n == 0x205F
    ||| n == 0x3000
}

pub fn is_white_space(c: char) -> (r: bool)
    ensures
        r == is_space(c),
{
    let n: u32 = c as u32;
    (0x9 <= n && n <= 0xD) || n == 0x20 || n == 0x85 || n == 0xA0 || n == 0x1680 || (0x2000 <= n
        && n <= 0x200A) || n == 0x2028 || n == 0x2029 || n == 0x202F || n == 0x205F || n == 0x3000
}

pub open spec fn is_upper(c: char) -> bool {
    'A' <= c <= 'Z'
}

pub open spec fn is_digit(c: char) -> bool {
    '0' <= c <= '9'
}

/// ASCII letters in lower case, everything else unchanged.
pub open spec fn lower(c: char) -> char {
    if is_upper(c) {
        (c as u32 + 32) as char
    } else {
        c
    }
}

pub open spec fn lowered(s: Seq<char>) -> Seq<char> {
    s.map_values(|c: char| lower(c))
}

// ---------------------------------------------------------------------------
// Conversions
// ---------------------------------------------------------------------------

/// The characters of `s`, in order.
pub fn chars_of(s: &str) -> (v: Vec<char>)
    ensures
        v@ == s@,
{
    let mut v: Vec<char> = Vec::new();
    for c in it: s.chars()
        invariant
            v@ == s@.take(it.index()),
            it.seq() == s@,
    {
        v.push(c);
    }
    assert(s@.take(s@.len() as int) == s@);
    v
}

/// The text of the characters `v[a..b]`.
pub fn text_between(v: &Vec<char>, a: usize, b: usize) -> (s: String)
    requires
        a <= b <= v@.len(),
    ensures
        s@ == v@.subrange(a as int, b as int),
{
    let mut s = String::new();
    let mut i: usize = a;
    while i < b
        invariant
            a <= i <= b <= v@.len(),
            s@ == v@.subrange(a as int, i as int),
        decreases b - i,
    {
        s.push(v[i]);
        i += 1;
    }
    s
}

/// The text of all the characters of `v`.
pub fn text_of(v: &Vec<char>) -> (s: String)
    ensures
        s@ == v@,
{
    assert(v@.subrange(0, v@.len() as int) == v@);
    text_between(v, 0, v.len())
}

/// Whether two texts are the same.
pub fn same(a: &str, b: &str) -> (r: bool)
    ensures
        r == (a@ == b@),
{
    a.eq(b)
}

/// Whether a text has no characters.
pub fn empty(s: &str) -> (r: bool)
    ensures
        r == (s@.len() == 0),
{
    s.is_empty()
}

// ---------------------------------------------------------------------------
// Length in bytes
// ---------------------------------------------------------------------------

/// How many bytes UTF-8 takes for `c`.
pub open spec fn utf8_width(c: char) -> nat {
    let n = c as u32;
    if n <= 0x7F {
        1
    } else if n <= 0x7FF {
        2
    } else if n <= 0xFFFF {
        3
    } else {
        4
    }
}

/// How many bytes UTF-8 takes for `s`.
pub open spec fn byte_len(s: Seq<char>) -> nat
    decreases s.len(),
{
    if s.len() == 0 {
        0
    } else {
        byte_len(s.drop_last()) + utf8_width(s.last())
    }
}

pub proof fn lemma_byte_len_add(a: Seq<char>, b: Seq<char>)
    ensures
        byte_len(a + b) == byte_len(a) + byte_len(b),
    decreases b.len(),
{
    if b.len() == 0 {
        assert(a + b =~= a);
    } else {
        assert((a + b).drop_last() =~= a + b.drop_last());
        lemma_byte_len_add(a, b.drop_last());
    }
}

pub proof fn lemma_byte_len_bounds(s: Seq<char>)
    ensures
        s.len() <= byte_len(s) <= 4 * s.len(),
    decreases s.len(),
{
    if s.len() > 0 {
        lemma_byte_len_bounds(s.drop_last());
    }
}

pub proof fn lemma_byte_len_encode(s: Seq<char>)
    ensures
        byte_len(s) == encode_utf8(s).len(),
    decreases s.len(),
{
    if s.len() > 0 {
        lemma_byte_len_encode(s.drop_first());
        vstd::utf8::char_is_scalar(s[0]);
        assert(encode_scalar(s[0] as u32).len() == utf8_width(s[0]));
        assert(seq![s[0]] + s.drop_first() =~= s);
        lemma_byte_len_add(seq![s[0]], s.drop_first());
        assert(seq![s[0]].drop_last() =~= Seq::<char>::empty());
        assert(byte_len(seq![s[0]]) == utf8_width(s[0])) by {
            reveal_with_fuel(byte_len, 2);
        }
    }
}

/// The length of `s` in bytes.
pub fn bytes_in(s: &str) -> (n: usize)
    ensures
        n == byte_len(s@),
{
    proof {
        lemma_byte_len_encode(s@);
    }
    s.as_bytes().len()
}

/// How many bytes UTF-8 takes for `c`.
pub fn width_of(c: char) -> (n: usize)
    ensures
        n == utf8_width(c),
{
    let x: u32 = c as u32;
    if x <= 0x7F {
        1
    } else if x <= 0x7FF {
        2
    } else if x <= 0xFFFF {
        3
    } else {
        4
    }
}

/// How many characters of `s`, from `k` on, can be kept within `max` bytes.
pub open spec fn fit_from(s: Seq<char>, k: int, max: int) -> int
    decreases s.len() - k,
{
    if 0 <= k < s.len() && byte_len(s.take(k + 1)) <= max {
        fit_from(s, k + 1, max)
    } else {
        k
    }
}

/// The most characters at the start of `s` that take at most `max` bytes.
pub open spec fn fit(s: Seq<char>, max: int) -> int {
    fit_from(s, 0, max)
}

/// The first character position from `k` on that is at least `min` bytes in.
pub open spec fn reach_from(s: Seq<char>, k: int, min: int) -> int
    decreases s.len() - k,
{
    if 0 <= k < s.len() && byte_len(s.take(k)) < min {
        reach_from(s, k + 1, min)
    } else {
        k
    }
}

/// The fewest characters at the start of `s` that take at least `min` bytes;
/// all of them where `s` is shorter.
pub open spec fn reach(s: Seq<char>, min: int) -> int {
    reach_from(s, 0, min)
}

pub proof fn lemma_take_grows(s: Seq<char>, a: int, b: int)
    requires
        0 <= a <= b <= s.len(),
    ensures
        byte_len(s.take(a)) <= byte_len(s.take(b)),
        byte_len(s.take(a)) + (b - a) <= byte_len(s.take(b)),
{
    assert(s.take(b) =~= s.take(a) + s.subrange(a, b));
    lemma_byte_len_add(s.take(a), s.subrange(a, b));
    lemma_byte_len_bounds(s.subrange(a, b));
}

proof fn lemma_fit_from(s: Seq<char>, k: int, max: int)
    requires
        0 <= k <= s.len(),
        byte_len(s.take(k)) <= max,
    ensures
        k <= fit_from(s, k, max) <= s.len(),
        byte_len(s.take(fit_from(s, k, max))) <= max,
        fit_from(s, k, max) < s.len() ==> byte_len(s.take(fit_from(s, k, max) + 1)) > max,
    decreases s.len() - k,
{
    if k < s.len() && byte_len(s.take(k + 1)) <= max {
        lemma_fit_from(s, k + 1, max);
    }
}

/// What `fit` keeps is within the limit, and one character more would not be.
pub proof fn lemma_fit(s: Seq<char>, max: int)
    requires
        0 <= max,
    ensures
        0 <= fit(s, max) <= s.len(),
        byte_len(s.take(fit(s, max))) <= max,
        forall|k: int| 0 <= k <= s.len() && byte_len(#[trigger] s.take(k)) <= max ==> k <= fit(s, max),
{
    assert(s.take(0) =~= Seq::<char>::empty());
    lemma_fit_from(s, 0, max);
    let f = fit(s, max);
    assert forall|k: int| 0 <= k <= s.len() && byte_len(#[trigger] s.take(k)) <= max implies k
        <= f by {
        if k > f {
            lemma_take_grows(s, f + 1, k);
        }
    }
}

pub proof fn lemma_reach(s: Seq<char>, k: int, min: int)
    requires
        0 <= k <= s.len(),
    ensures
        k <= reach_from(s, k, min) <= s.len(),
        reach_from(s, k, min) < s.len() ==> byte_len(s.take(reach_from(s, k, min))) >= min,
    decreases s.len() - k,
{
    if k < s.len() && byte_len(s.take(k)) < min {
        lemma_reach(s, k + 1, min);
    }
}

/// The most characters of `v` that take at most `max` bytes, and how many
/// bytes those take.
pub fn fit_chars(v: &Vec<char>, max: usize) -> (r: (usize, usize))
    ensures
        r.0 == fit(v@, max as int),
        r.0 <= v@.len(),
        r.1 == byte_len(v@.take(r.0 as int)),
        r.1 <= max,
{
    let mut k: usize = 0;
    let mut n: usize = 0;
    assert(v@.take(0) =~= Seq::<char>::empty());
    while k < v.len()
        invariant
            k <= v@.len(),
            n == byte_len(v@.take(k as int)),
            n <= max,
            fit(v@, max as int) == fit_from(v@, k as int, max as int),
        decreases v@.len() - k,
    {
        proof {
            assert(v@.take(k + 1).drop_last() =~= v@.take(k as int));
        }
        let w = width_of(v[k]);
        if w > max - n {
            return (k, n);
        }
        n = n + w;
        k = k + 1;
    }
    (k, n)
}

/// The fewest characters of `v` that take at least `min` bytes.
pub fn reach_chars(v: &Vec<char>, min: usize) -> (r: usize)
    ensures
        r == reach(v@, min as int),
        r <= v@.len(),
{
    let mut k: usize = 0;
    let mut n: usize = 0;
    assert(v@.take(0) =~= Seq::<char>::empty());
    while k < v.len() && n < min
        invariant
            k <= v@.len(),
            n < min ==> n == byte_len(v@.take(k as int)),
            n >= min ==> byte_len(v@.take(k as int)) >= min,
            reach(v@, min as int) == reach_from(v@, k as int, min as int),
        decreases v@.len() - k,
    {
        proof {
            assert(v@.take(k + 1).drop_last() =~= v@.take(k as int));
        }
        let w = width_of(v[k]);
        n = if w >= min - n {
            min
        } else {
            n + w
        };
        k = k + 1;
    }
    k
}

// ---------------------------------------------------------------------------
// Trimming
// ---------------------------------------------------------------------------

/// The first position from `i` on that holds no white space.
pub open spec fn skip_space(s: Seq<char>, i: int) -> int
    decreases s.len() - i,
{
    if 0 <= i < s.len() && is_space(s[i]) {
        skip_space(s, i + 1)
    } else {
        i
    }
}

/// The end of `s[..j]` once the white space at its end is gone.
pub open spec fn drop_space(s: Seq<char>, j: int) -> int
    decreases j,
{
    if 0 < j <= s.len() && is_space(s[j - 1]) {
        drop_space(s, j - 1)
    } else {
        j
    }
}

/// The end of `s[..j]` once the run of `c` at its end is gone.
pub open spec fn drop_run(s: Seq<char>, c: char, j: int) -> int
    decreases j,
{
    if 0 < j <= s.len() && s[j - 1] == c {
        drop_run(s, c, j - 1)
    } else {
        j
    }
}

/// `s` without the run of `c` at its end.
pub open spec fn without_tail_run(s: Seq<char>, c: char) -> Seq<char> {
    s.take(drop_run(s, c, s.len() as int))
}

pub open spec fn trimmed_start(s: Seq<char>) -> Seq<char> {
    s.skip(skip_space(s, 0))
}

pub open spec fn trimmed_end(s: Seq<char>) -> Seq<char> {
    s.take(drop_space(s, s.len() as int))
}

/// `s` without the white space at both ends.
pub open spec fn trimmed(s: Seq<char>) -> Seq<char> {
    trimmed_end(trimmed_start(s))
}

pub fn trim_start(s: &str) -> (r: String)
    ensures
        r@ == trimmed_start(s@),
{
    let v = chars_of(s);
    let mut i: usize = 0;
    while i < v.len() && is_white_space(v[i])
        invariant
            i <= v@.len(),
            v@ == s@,
            skip_space(s@, 0) == skip_space(s@, i as int),
        decreases v@.len() - i,
    {
        i += 1;
    }
    assert(skip_space(s@, 0) == i);
    text_between(&v, i, v.len())
}

pub fn trim_end(s: &str) -> (r: String)
    ensures
        r@ == trimmed_end(s@),
{
    let v = chars_of(s);
    let mut j: usize = v.len();
    while j > 0 && is_white_space(v[j - 1])
        invariant
            j <= v@.len(),
            v@ == s@,
            drop_space(s@, s@.len() as int) == drop_space(s@, j as int),
        decreases j,
    {
        j -= 1;
    }
    assert(drop_space(s@, s@.len() as int) == j);
    text_between(&v, 0, j)
}

pub fn trim_end_run(s: &str, c: char) -> (r: String)
    ensures
        r@ == without_tail_run(s@, c),
{
    let v = chars_of(s);
    let mut j: usize = v.len();
    while j > 0 && v[j - 1] == c
        invariant
            j <= v@.len(),
            v@ == s@,
            drop_run(s@, c, s@.len() as int) == drop_run(s@, c, j as int),
        decreases j,
    {
        j -= 1;
    }
    assert(drop_run(s@, c, s@.len() as int) == j);
    text_between(&v, 0, j)
}

/// The first position from `i` on that holds no `c`.
pub open spec fn skip_run(s: Seq<char>, c: char, i: int) -> int
    decreases s.len() - i,
{
    if 0 <= i < s.len() && s[i] == c {
        skip_run(s, c, i + 1)
    } else {
        i
    }
}

/// `s` without the runs of `c` at both ends.
pub open spec fn without_runs(s: Seq<char>, c: char) -> Seq<char> {
    without_tail_run(s.skip(skip_run(s, c, 0)), c)
}

pub fn trim_runs(s: &str, c: char) -> (r: String)
    ensures
        r@ == without_runs(s@, c),
{
    let v = chars_of(s);
    let mut i: usize = 0;
    while i < v.len() && v[i] == c
        invariant
            i <= v@.len(),
            v@ == s@,
            skip_run(s@, c, 0) == skip_run(s@, c, i as int),
        decreases v@.len() - i,
    {
        i += 1;
    }
    let rest = text_between(&v, i, v.len());
    assert(rest@ =~= s@.skip(i as int));
    trim_end_run(&rest, c)
}

pub fn trim(s: &str) -> (r: String)
    ensures
        r@ == trimmed(s@),
{
    trim_end(&trim_start(s))
}

// ---------------------------------------------------------------------------
// Finding and splitting
// ---------------------------------------------------------------------------

/// The first position of `c` in `s` from `i` on, or the length of `s`.
pub open spec fn upto(s: Seq<char>, c: char, i: int) -> int
    decreases s.len() - i,
{
    if 0 <= i < s.len() && s[i] != c {
        upto(s, c, i + 1)
    } else {
        i
    }
}

pub proof fn lemma_upto(s: Seq<char>, c: char, i: int)
    requires
        0 <= i <= s.len(),
    ensures
        i <= upto(s, c, i) <= s.len(),
        upto(s, c, i) < s.len() ==> s[upto(s, c, i)] == c,
        forall|k: int| i <= k < upto(s, c, i) ==> s[k] != c,
    decreases s.len() - i,
{
    if i < s.len() && s[i] != c {
        lemma_upto(s, c, i + 1);
    }
}

/// What stands before and after the first `c`, if there is one.
pub open spec fn cut(s: Seq<char>, c: char) -> Option<(Seq<char>, Seq<char>)> {
    let j = upto(s, c, 0);
    if j < s.len() {
        Some((s.take(j), s.skip(j + 1)))
    } else {
        None
    }
}

/// What stands before the first `c`; all of `s` where there is none.
pub open spec fn head(s: Seq<char>, c: char) -> Seq<char> {
    s.take(upto(s, c, 0))
}

/// What stands after the first `c`; nothing where there is none.
pub open spec fn tail(s: Seq<char>, c: char) -> Seq<char> {
    if upto(s, c, 0) < s.len() {
        s.skip(upto(s, c, 0) + 1)
    } else {
        Seq::empty()
    }
}

fn position(v: &Vec<char>, c: char, i: usize) -> (j: usize)
    requires
        i <= v@.len(),
    ensures
        i <= j <= v@.len(),
        j == upto(v@, c, i as int),
{
    let mut j: usize = i;
    while j < v.len() && v[j] != c
        invariant
            i <= j <= v@.len(),
            upto(v@, c, i as int) == upto(v@, c, j as int),
        decreases v@.len() - j,
    {
        j += 1;
    }
    j
}

/// `s` cut at the first `c`.
pub fn split_once(s: &str, c: char) -> (r: Option<(String, String)>)
    ensures
        match r {
            Some((a, b)) => cut(s@, c) == Some((a@, b@)),
            None => cut(s@, c) is None,
        },
{
    let v = chars_of(s);
    let j = position(&v, c, 0);
    if j < v.len() {
        Some((text_between(&v, 0, j), text_between(&v, j + 1, v.len())))
    } else {
        None
    }
}

/// The part of `s` before the first `c` and the part after it.
pub fn split_head(s: &str, c: char) -> (r: (String, String))
    ensures
        r.0@ == head(s@, c),
        r.1@ == tail(s@, c),
{
    let v = chars_of(s);
    let j = position(&v, c, 0);
    if j < v.len() {
        (text_between(&v, 0, j), text_between(&v, j + 1, v.len()))
    } else {
        (text_between(&v, 0, j), String::new())
    }
}

/// `s` without one final carriage return.
pub open spec fn chomped(s: Seq<char>) -> Seq<char> {
    if s.len() > 0 && s.last() == '\r' {
        s.drop_last()
    } else {
        s
    }
}

/// The lines of `s` from position `i` on.
pub open spec fn lines_from(s: Seq<char>, i: int) -> Seq<Seq<char>>
    decreases s.len() - i,
{
    if 0 <= i < s.len() {
        proof {
            lemma_upto(s, '\n', i);
        }
        let j = upto(s, '\n', i);
        if j < s.len() {
            seq![chomped(s.subrange(i, j))] + lines_from(s, j + 1)
        } else {
            seq![s.subrange(i, s.len() as int)]
        }
    } else {
        Seq::empty()
    }
}

/// The lines of `s`: each ends at `\n` or `\r\n`, which is not part of it. A
/// last line without an end counts, an empty rest after a line's end does not.
pub open spec fn lines_of(s: Seq<char>) -> Seq<Seq<char>> {
    lines_from(s, 0)
}

pub fn lines(s: &str) -> (r: Vec<String>)
    ensures
        texts(r@) == lines_of(s@),
{
    let v = chars_of(s);
    let mut r: Vec<String> = Vec::new();
    let mut i: usize = 0;
    while i < v.len()
        invariant
            i <= v@.len(),
            v@ == s@,
            texts(r@) + lines_from(s@, i as int) == lines_of(s@),
        decreases v@.len() - i,
    {
        let ghost r0 = r@;
        let j = position(&v, '\n', i);
        let e = if j < v.len() && j > i && v[j - 1] == '\r' {
            j - 1
        } else {
            j
        };
        let line = text_between(&v, i, e);
        r.push(line);
        proof {
            lemma_texts_push(r0, line);
            assert(j < s@.len() ==> line@ =~= chomped(s@.subrange(i as int, j as int)));
            if j < s@.len() {
                assert(texts(r@) + lines_from(s@, j + 1) =~= texts(r0) + (seq![line@] + lines_from(
                    s@,
                    j + 1,
                )));
            } else {
                assert(lines_from(s@, j as int) =~= Seq::<Seq<char>>::empty());
                assert(texts(r@) =~= texts(r0) + seq![line@]);
            }
        }
        i = if j < v.len() {
            j + 1
        } else {
            j
        };
    }
    proof {
        assert(texts(r@) + Seq::<Seq<char>>::empty() =~= texts(r@));
    }
    r
}

/// The first line of `s`; empty where there is none.
pub open spec fn first_line(s: Seq<char>) -> Seq<char> {
    if lines_of(s).len() > 0 {
        lines_of(s)[0]
    } else {
        Seq::empty()
    }
}

/// The first line of `s` and how many lines it has.
pub fn line_count(s: &str) -> (r: (String, usize))
    ensures
        r.0@ == first_line(s@),
        r.1 == lines_of(s@).len(),
{
    let v = chars_of(s);
    let mut first = String::new();
    let mut n: usize = 0;
    let mut i: usize = 0;
    while i < v.len()
        invariant
            n <= i <= v@.len(),
            v@ == s@,
            n + lines_from(s@, i as int).len() == lines_of(s@).len(),
            n == 0 ==> i == 0 && first@.len() == 0,
            n > 0 ==> lines_of(s@).len() > 0 && first@ == lines_of(s@)[0],
        decreases v@.len() - i,
    {
        let j = position(&v, '\n', i);
        if n == 0 {
            let e = if j < v.len() && j > i && v[j - 1] == '\r' {
                j - 1
            } else {
                j
            };
            first = text_between(&v, i, e);
            proof {
                assert(j < s@.len() ==> first@ =~= chomped(s@.subrange(i as int, j as int)));
            }
        }
        n = n + 1;
        i = if j < v.len() {
            j + 1
        } else {
            j
        };
    }
    (first, n)
}

/// The pieces of `s` from `i` on, cut at every `c`.
pub open spec fn pieces_from(s: Seq<char>, c: char, i: int) -> Seq<Seq<char>>
    decreases s.len() - i,
{
    if 0 <= i <= s.len() {
        proof {
            lemma_upto(s, c, i);
        }
        let j = upto(s, c, i);
        if j < s.len() {
            seq![s.subrange(i, j)] + pieces_from(s, c, j + 1)
        } else {
            seq![s.subrange(i, s.len() as int)]
        }
    } else {
        Seq::empty()
    }
}

/// The pieces of `s` between its occurrences of `c`, empty ones too.
pub open spec fn pieces_of(s: Seq<char>, c: char) -> Seq<Seq<char>> {
    pieces_from(s, c, 0)
}

pub fn split(s: &str, c: char) -> (r: Vec<String>)
    ensures
        texts(r@) == pieces_of(s@, c),
{
    let v = chars_of(s);
    let mut r: Vec<String> = Vec::new();
    let mut i: usize = 0;
    loop
        invariant
            i <= v@.len(),
            v@ == s@,
            texts(r@) + pieces_from(s@, c, i as int) == pieces_of(s@, c),
        decreases v@.len() - i,
    {
        let ghost r0 = r@;
        let j = position(&v, c, i);
        let piece = text_between(&v, i, j);
        r.push(piece);
        proof {
            lemma_texts_push(r0, piece);
        }
        if j < v.len() {
            proof {
                assert(texts(r@) + pieces_from(s@, c, j + 1) =~= texts(r0) + (seq![piece@]
                    + pieces_from(s@, c, j + 1)));
            }
            i = j + 1;
        } else {
            proof {
                assert(texts(r@) =~= texts(r0) + seq![piece@]);
            }
            return r;
        }
    }
}

/// Whether `p` stands in `s` at position `i`.
pub open spec fn occurs_at(s: Seq<char>, p: Seq<char>, i: int) -> bool {
    0 <= i && i + p.len() <= s.len() && s.subrange(i, i + p.len()) == p
}

pub open spec fn begins(s: Seq<char>, p: Seq<char>) -> bool {
    occurs_at(s, p, 0)
}

pub open spec fn ends(s: Seq<char>, p: Seq<char>) -> bool {
    occurs_at(s, p, s.len() - p.len())
}

/// The first position from `i` on at which `p` stands in `s`.
pub open spec fn found_from(s: Seq<char>, p: Seq<char>, i: int) -> Option<int>
    decreases s.len() - i + 1,
{
    if 0 <= i && i + p.len() <= s.len() {
        if occurs_at(s, p, i) {
            Some(i)
        } else {
            found_from(s, p, i + 1)
        }
    } else {
        None
    }
}

/// Whether `p` stands anywhere in `s`.
pub open spec fn holds(s: Seq<char>, p: Seq<char>) -> bool {
    found_from(s, p, 0) is Some
}

fn stands_at(v: &Vec<char>, p: &Vec<char>, i: usize) -> (r: bool)
    requires
        i <= v@.len(),
    ensures
        r == occurs_at(v@, p@, i as int),
{
    if p.len() > v.len() - i {
        return false;
    }
    let mut k: usize = 0;
    while k < p.len()
        invariant
            k <= p@.len(),
            i + p@.len() <= v.len(),
            forall|m: int| 0 <= m < k ==> v@[i + m] == p@[m],
        decreases p@.len() - k,
    {
        if v[i + k] != p[k] {
            assert(v@.subrange(i as int, i + p@.len())[k as int] != p@[k as int]);
            return false;
        }
        k += 1;
    }
    assert(v@.subrange(i as int, i + p@.len()) =~= p@);
    true
}

pub fn starts_with(s: &str, p: &str) -> (r: bool)
    ensures
        r == begins(s@, p@),
{
    stands_at(&chars_of(s), &chars_of(p), 0)
}

pub fn ends_with(s: &str, p: &str) -> (r: bool)
    ensures
        r == ends(s@, p@),
{
    let v = chars_of(s);
    let q = chars_of(p);
    if q.len() > v.len() {
        false
    } else {
        stands_at(&v, &q, v.len() - q.len())
    }
}

/// The position of the first occurrence of `p` in `s`.
pub fn find(s: &str, p: &str) -> (r: Option<usize>)
    ensures
        match r {
            Some(k) => found_from(s@, p@, 0) == Some(k as int) && k + p@.len() <= s@.len(),
            None => found_from(s@, p@, 0) is None,
        },
{
    let v = chars_of(s);
    let q = chars_of(p);
    if q.len() > v.len() {
        return None;
    }
    let mut i: usize = 0;
    while i <= v.len() - q.len()
        invariant
            v@ == s@,
            q@ == p@,
            q@.len() <= v@.len(),
            i <= v@.len() - q@.len() + 1,
            found_from(s@, p@, 0) == found_from(s@, p@, i as int),
        decreases v@.len() - i + 1,
    {
        if stands_at(&v, &q, i) {
            return Some(i);
        }
        if i == v.len() - q.len() {
            assert(found_from(s@, p@, i + 1) is None);
            return None;
        }
        i += 1;
    }
    None
}

pub fn contains(s: &str, p: &str) -> (r: bool)
    ensures
        r == holds(s@, p@),
{
    find(s, p).is_some()
}

/// What follows the prefix `p` of `s`, if `s` begins with it.
pub open spec fn stripped(s: Seq<char>, p: Seq<char>) -> Option<Seq<char>> {
    if begins(s, p) {
        Some(s.skip(p.len() as int))
    } else {
        None
    }
}

pub fn strip_prefix(s: &str, p: &str) -> (r: Option<String>)
    ensures
        opt_text(r) == stripped(s@, p@),
{
    let v = chars_of(s);
    let q = chars_of(p);
    if stands_at(&v, &q, 0) {
        Some(text_between(&v, q.len(), v.len()))
    } else {
        None
    }
}

// ---------------------------------------------------------------------------
// Joining
// ---------------------------------------------------------------------------

/// The texts of `v` in order, with `sep` between each two.
pub open spec fn joined(v: Seq<Seq<char>>, sep: Seq<char>) -> Seq<char>
    decreases v.len(),
{
    if v.len() == 0 {
        Seq::empty()
    } else if v.len() == 1 {
        v[0]
    } else {
        joined(v.drop_last(), sep) + sep + v.last()
    }
}

pub fn join(v: &Vec<String>, sep: &str) -> (r: String)
    ensures
        r@ == joined(texts(v@), sep@),
{
    let mut r = String::new();
    let mut i: usize = 0;
    while i < v.len()
        invariant
            i <= v@.len(),
            r@ == joined(texts(v@).take(i as int), sep@),
        decreases v@.len() - i,
    {
        proof {
            assert(texts(v@).take(i + 1).drop_last() =~= texts(v@).take(i as int));
            assert(texts(v@).take(i + 1).last() == v@[i as int]@);
        }
        if i > 0 {
            r.append(sep);
        }
        r.append(v[i].as_str());
        i += 1;
    }
    assert(texts(v@).take(v@.len() as int) =~= texts(v@));
    r
}

// ---------------------------------------------------------------------------
// Numbers
// ---------------------------------------------------------------------------

pub open spec fn digit(d: nat) -> char {
    ('0' as u32 + d) as char
}

/// `n` in decimal notation.
pub open spec fn decimal(n: nat) -> Seq<char>
    decreases n,
{
    if n < 10 {
        seq![digit(n)]
    } else {
        decimal(n / 10).push(digit(n % 10))
    }
}

fn digit_char(d: u8) -> (c: char)
    requires
        d < 10,
    ensures
        c == digit(d as nat),
{
    (48u8 + d) as char
}

pub fn dec(n: u64) -> (s: String)
    ensures
        s@ == decimal(n as nat),
    decreases n,
{
    if n < 10 {
        let mut s = String::new();
        s.push(digit_char(n as u8));
        s
    } else {
        let mut s = dec(n / 10);
        s.push(digit_char((n % 10) as u8));
        s
    }
}

/// A large number in decimal.
pub fn dec_u128(n: u128) -> (s: String)
    ensures
        s@ == decimal(n as nat),
    decreases n,
{
    if n < 10 {
        let mut s = String::new();
        s.push(digit_char(n as u8));
        s
    } else {
        let mut s = dec_u128(n / 10);
        s.push(digit_char((n % 10) as u8));
        s
    }
}

pub open spec fn digit_value(c: char) -> nat {
    (c as u32 - '0' as u32) as nat
}

/// The number that a run of decimal digits denotes.
pub open spec fn digits_value(s: Seq<char>) -> nat
    decreases s.len(),
{
    if s.len() == 0 {
        0
    } else {
        digits_value(s.drop_last()) * 10 + digit_value(s.last())
    }
}

pub open spec fn all_digits(s: Seq<char>) -> bool {
    forall|i: int| 0 <= i < s.len() ==> is_digit(#[trigger] s[i])
}

/// The digits of an unsigned number: `s` without one leading plus sign.
pub open spec fn unsigned_digits(s: Seq<char>) -> Seq<char> {
    if s.len() > 0 && s[0] == '+' {
        s.skip(1)
    } else {
        s
    }
}

/// The natural number written in `s`: at least one digit and nothing else,
/// but for one plus sign that may stand in front.
pub open spec fn parsed(s: Seq<char>) -> Option<nat> {
    let d = unsigned_digits(s);
    if d.len() > 0 && all_digits(d) {
        Some(digits_value(d))
    } else {
        None
    }
}

/// The number written in `s`, if there is one and it is at most `max`.
pub open spec fn parsed_upto(s: Seq<char>, max: nat) -> Option<nat> {
    match parsed(s) {
        Some(n) => if n <= max {
            Some(n)
        } else {
            None
        },
        None => None,
    }
}

proof fn lemma_digits_grow(s: Seq<char>, i: int)
    requires
        0 <= i <= s.len(),
    ensures
        digits_value(s.take(i)) <= digits_value(s),
    decreases s.len() - i,
{
    if i < s.len() {
        lemma_digits_grow(s, i + 1);
        assert(s.take(i + 1).drop_last() =~= s.take(i));
    } else {
        assert(s.take(i) =~= s);
    }
}

/// Reads a number of at most `max`.
fn parse_upto(s: &str, max: u64) -> (r: Option<u64>)
    ensures
        match r {
            Some(n) => parsed_upto(s@, max as nat) == Some(n as nat),
            None => parsed_upto(s@, max as nat) is None,
        },
{
    let v = chars_of(s);
    let start: usize = if v.len() > 0 && v[0] == '+' {
        1
    } else {
        0
    };
    let ghost d = unsigned_digits(s@);
    proof {
        assert(d =~= s@.skip(start as int));
    }
    if start >= v.len() {
        return None;
    }
    let mut n: u64 = 0;
    let mut i: usize = start;
    while i < v.len()
        invariant
            start <= i <= v@.len(),
            v@ == s@,
            d == s@.skip(start as int),
            d == unsigned_digits(s@),
            n == digits_value(d.take(i - start)),
            n <= max,
            all_digits(d.take(i - start)),
        decreases v@.len() - i,
    {
        let c = v[i];
        let ghost k = i - start;
        proof {
            assert(d[k] == c);
            assert(d.take(k + 1).drop_last() =~= d.take(k));
        }
        if c < '0' || c > '9' {
            assert(!is_digit(d[k]));
            return None;
        }
        let x: u64 = (c as u32 - 48) as u64;
        if n > max / 10 || x > max - n * 10 {
            proof {
                lemma_digits_grow(d, k + 1);
            }
            return None;
        }
        n = n * 10 + x;
        proof {
            assert forall|m: int| 0 <= m < d.take(k + 1).len() implies is_digit(
                #[trigger] d.take(k + 1)[m],
            ) by {
                if m < k {
                    assert(d.take(k + 1)[m] == d.take(k)[m]);
                }
            }
        }
        i += 1;
    }
    proof {
        assert(d.take(i - start) =~= d);
    }
    Some(n)
}

pub fn parse_u64(s: &str) -> (r: Option<u64>)
    ensures
        match r {
            Some(n) => parsed_upto(s@, u64::MAX as nat) == Some(n as nat),
            None => parsed_upto(s@, u64::MAX as nat) is None,
        },
{
    parse_upto(s, u64::MAX)
}

pub fn parse_usize(s: &str) -> (r: Option<usize>)
    ensures
        match r {
            Some(n) => parsed_upto(s@, usize::MAX as nat) == Some(n as nat),
            None => parsed_upto(s@, usize::MAX as nat) is None,
        },
{
    match parse_upto(s, usize::MAX as u64) {
        Some(n) => Some(n as usize),
        None => None,
    }
}

pub fn parse_u32(s: &str) -> (r: Option<u32>)
    ensures
        match r {
            Some(n) => parsed_upto(s@, u32::MAX as nat) == Some(n as nat),
            None => parsed_upto(s@, u32::MAX as nat) is None,
        },
{
    match parse_upto(s, u32::MAX as u64) {
        Some(n) => Some(n as u32),
        None => None,
    }
}

/// A number read back from its decimal notation is the same number.
pub proof fn decimal_reads_back(n: nat)
    ensures
        parsed(decimal(n)) == Some(n),
    decreases n,
{
    lemma_decimal(n);
    assert(unsigned_digits(decimal(n)) == decimal(n));
}

pub proof fn lemma_decimal(n: nat)
    ensures
        decimal(n).len() > 0,
        all_digits(decimal(n)),
        digits_value(decimal(n)) == n,
    decreases n,
{
    if n < 10 {
        assert(decimal(n).drop_last() =~= Seq::<char>::empty());
        assert(digits_value(Seq::<char>::empty()) == 0);
    } else {
        lemma_decimal(n / 10);
        assert(decimal(n).drop_last() =~= decimal(n / 10));
    }
}

// ---------------------------------------------------------------------------
// Signed numbers
// ---------------------------------------------------------------------------

/// `n` in decimal notation, with a minus sign where it is negative.
pub open spec fn signed_decimal(n: int) -> Seq<char> {
    if n < 0 {
        "-"@ + decimal((-n) as nat)
    } else {
        decimal(n as nat)
    }
}

pub fn dec_i32(n: i32) -> (s: String)
    ensures
        s@ == signed_decimal(n as int),
{
    if n < 0 {
        let mut s = "-".to_string();
        let m: i64 = -(n as i64);
        let d = dec(m as u64);
        s.append(&d);
        s
    } else {
        dec(n as u64)
    }
}

/// The number written in `s` with an optional sign, if it fits in 32 bits.
pub open spec fn parsed_i32(s: Seq<char>) -> Option<int> {
    if s.len() > 0 && s[0] == '-' {
        let d = s.skip(1);
        if d.len() > 0 && all_digits(d) && digits_value(d) <= 0x8000_0000 {
            Some(-(digits_value(d) as int))
        } else {
            None
        }
    } else {
        match parsed_upto(s, i32::MAX as nat) {
            Some(n) => Some(n as int),
            None => None,
        }
    }
}

pub fn parse_i32(s: &str) -> (r: Option<i32>)
    ensures
        match r {
            Some(n) => parsed_i32(s@) == Some(n as int),
            None => parsed_i32(s@) is None,
        },
{
    let v = chars_of(s);
    if v.len() > 0 && v[0] == '-' {
        if v.len() > 1 && v[1] == '+' {
            assert(!is_digit(s@.skip(1)[0]));
            return None;
        }
        let rest = text_between(&v, 1, v.len());
        proof {
            assert(rest@ =~= s@.skip(1));
            assert(unsigned_digits(rest@) == rest@);
        }
        match parse_upto(&rest, 0x8000_0000) {
            Some(n) => Some((-(n as i64)) as i32),
            None => None,
        }
    } else {
        match parse_upto(s, i32::MAX as u64) {
            Some(n) => Some(n as i32),
            None => None,
        }
    }
}

// ---------------------------------------------------------------------------
// Parts of lists
// ---------------------------------------------------------------------------

/// The sum of two numbers, held at `max`.
pub open spec fn held_sum(a: int, b: int, max: int) -> int {
    if a + b <= max {
        a + b
    } else {
        max
    }
}

pub fn add_u128(a: u128, b: u128) -> (r: u128)
    ensures
        r == held_sum(a as int, b as int, u128::MAX as int),
{
    if b <= u128::MAX - a {
        a + b
    } else {
        u128::MAX
    }
}

pub fn add_u64(a: u64, b: u64) -> (r: u64)
    ensures
        r == held_sum(a as int, b as int, u64::MAX as int),
{
    if b <= u64::MAX - a {
        a + b
    } else {
        u64::MAX
    }
}

pub fn add_usize(a: usize, b: usize) -> (r: usize)
    ensures
        r == held_sum(a as int, b as int, usize::MAX as int),
{
    if b <= usize::MAX - a {
        a + b
    } else {
        usize::MAX
    }
}

pub fn add_u32(a: u32, b: u32) -> (r: u32)
    ensures
        r == held_sum(a as int, b as int, u32::MAX as int),
{
    if b <= u32::MAX - a {
        a + b
    } else {
        u32::MAX
    }
}

/// Joins the texts `v[a..b]`.
pub fn join_range(v: &Vec<String>, a: usize, b: usize, sep: &str) -> (r: String)
    requires
        a <= b <= v@.len(),
    ensures
        r@ == joined(texts(v@).subrange(a as int, b as int), sep@),
{
    let mut r = String::new();
    let mut i: usize = a;
    while i < b
        invariant
            a <= i <= b <= v@.len(),
            r@ == joined(texts(v@).subrange(a as int, i as int), sep@),
        decreases b - i,
    {
        proof {
            let upto = texts(v@).subrange(a as int, i + 1);
            assert(upto.drop_last() =~= texts(v@).subrange(a as int, i as int));
            assert(upto.last() == v@[i as int]@);
        }
        if i > a {
            r.append(sep);
        }
        r.append(v[i].as_str());
        i += 1;
    }
    r
}

/// `s` with every `from` replaced by `to`.
pub open spec fn swapped(s: Seq<char>, from: char, to: char) -> Seq<char> {
    s.map_values(
        |c: char|
            if c == from {
                to
            } else {
                c
            },
    )
}

pub fn replace_char(s: &str, from: char, to: char) -> (r: String)
    ensures
        r@ == swapped(s@, from, to),
{
    let v = chars_of(s);
    let mut r = String::new();
    let mut i: usize = 0;
    while i < v.len()
        invariant
            i <= v@.len(),
            v@ == s@,
            r@ == swapped(s@, from, to).take(i as int),
        decreases v@.len() - i,
    {
        let c = if v[i] == from {
            to
        } else {
            v[i]
        };
        r.push(c);
        assert(r@ =~= swapped(s@, from, to).take(i + 1));
        i += 1;
    }
    assert(swapped(s@, from, to).take(s@.len() as int) =~= swapped(s@, from, to));
    r
}

pub fn lower_ascii(s: &str) -> (r: String)
    ensures
        r@ == lowered(s@),
{
    let v = chars_of(s);
    let mut r = String::new();
    let mut i: usize = 0;
    while i < v.len()
        invariant
            i <= v@.len(),
            v@ == s@,
            r@ == lowered(s@).take(i as int),
        decreases v@.len() - i,
    {
        let c = lower_char(v[i]);
        r.push(c);
        assert(r@ =~= lowered(s@).take(i + 1));
        i += 1;
    }
    assert(lowered(s@).take(s@.len() as int) =~= lowered(s@));
    r
}

fn lower_char(c: char) -> (r: char)
    ensures
        r == lower(c),
{
    if 'A' <= c && c <= 'Z' {
        ((c as u8) + 32) as char
    } else {
        c
    }
}

/// `s` with every occurrence of `p`, from `i` on, replaced by `q`; occurrences
/// are found from left to right and do not overlap.
pub open spec fn replaced_from(s: Seq<char>, p: Seq<char>, q: Seq<char>, i: int) -> Seq<char>
    decreases s.len() - i,
{
    if 0 <= i < s.len() {
        if p.len() > 0 && occurs_at(s, p, i) {
            q + replaced_from(s, p, q, i + p.len())
        } else {
            seq![s[i]] + replaced_from(s, p, q, i + 1)
        }
    } else {
        Seq::empty()
    }
}

/// `s` with every occurrence of the non-empty text `p` replaced by `q`.
pub open spec fn replaced(s: Seq<char>, p: Seq<char>, q: Seq<char>) -> Seq<char> {
    replaced_from(s, p, q, 0)
}

pub fn replace(s: &str, p: &str, q: &str) -> (r: String)
    ensures
        r@ == replaced(s@, p@, q@),
{
    let v = chars_of(s);
    let w = chars_of(p);
    let mut r = String::new();
    let mut i: usize = 0;
    while i < v.len()
        invariant
            i <= v@.len(),
            v@ == s@,
            w@ == p@,
            r@ + replaced_from(s@, p@, q@, i as int) == replaced(s@, p@, q@),
        decreases v@.len() - i,
    {
        let ghost r0 = r@;
        if w.len() > 0 && stands_at(&v, &w, i) {
            r.append(q);
            assert(i + w.len() <= v.len());
            i = i + w.len();
            assert(r@ + replaced_from(s@, p@, q@, i as int) =~= r0 + (q@ + replaced_from(
                s@,
                p@,
                q@,
                i as int,
            )));
        } else {
            r.push(v[i]);
            i = i + 1;
            assert(r@ + replaced_from(s@, p@, q@, i as int) =~= r0 + (seq![s@[i - 1]]
                + replaced_from(s@, p@, q@, i as int)));
        }
    }
    assert(r@ + Seq::<char>::empty() =~= r@);
    r
}

// ---------------------------------------------------------------------------
// Lines written and read back
// ---------------------------------------------------------------------------

proof fn lemma_upto_skip(s: Seq<char>, c: char, i: int)
    requires
        0 <= i <= s.len(),
    ensures
        upto(s, c, i) == i + upto(s.skip(i), c, 0),
{
    lemma_upto(s, c, i);
    lemma_upto(s.skip(i), c, 0);
    let a = upto(s, c, i);
    let b = upto(s.skip(i), c, 0);
    if a < i + b {
        assert(s.skip(i)[a - i] == s[a]);
    } else if a > i + b {
        assert(s.skip(i)[b] == s[i + b]);
    }
}

proof fn lemma_lines_skip(s: Seq<char>, i: int)
    requires
        0 <= i <= s.len(),
    ensures
        lines_from(s, i) == lines_of(s.skip(i)),
    decreases s.len() - i,
{
    if i < s.len() {
        let t = s.skip(i);
        lemma_upto(s, '\n', i);
        lemma_upto_skip(s, '\n', i);
        let j = upto(s, '\n', i);
        if j < s.len() {
            lemma_lines_skip(s, j + 1);
            lemma_lines_skip(t, j + 1 - i);
            assert(t.skip(j + 1 - i) =~= s.skip(j + 1));
            assert(t.subrange(0, j - i) =~= s.subrange(i, j));
        } else {
            assert(t.subrange(0, t.len() as int) =~= s.subrange(i, s.len() as int));
        }
    }
}

/// A line, its end, and a rest read as that line and the lines of the rest.
pub proof fn lemma_lines_cons(line: Seq<char>, rest: Seq<char>)
    requires
        !line.contains('\n'),
        line.len() > 0 ==> line.last() != '\r',
    ensures
        lines_of(line + seq!['\n'] + rest) == seq![line] + lines_of(rest),
{
    let s = line + seq!['\n'] + rest;
    lemma_upto(s, '\n', 0);
    let j = upto(s, '\n', 0);
    assert(s[line.len() as int] == '\n');
    if j < line.len() {
        assert(s[j] == line[j]);
        assert(line.contains('\n'));
    }
    assert(j == line.len());
    assert(s.subrange(0, j) =~= line);
    lemma_lines_skip(s, j + 1);
    assert(s.skip(j + 1) =~= rest);
}

/// A line without an end reads as itself; an empty one as nothing.
pub proof fn lemma_lines_one(line: Seq<char>)
    requires
        !line.contains('\n'),
        line.len() > 0,
    ensures
        lines_of(line) == seq![line],
{
    lemma_upto(line, '\n', 0);
    let j = upto(line, '\n', 0);
    if j < line.len() {
        assert(line.contains('\n'));
    }
    assert(line.subrange(0, line.len() as int) =~= line);
}

pub proof fn lemma_joined_front(v: Seq<Seq<char>>, sep: Seq<char>)
    requires
        v.len() > 1,
    ensures
        joined(v, sep) == v[0] + sep + joined(v.drop_first(), sep),
    decreases v.len(),
{
    let rest = v.drop_first();
    if v.len() == 2 {
        assert(v.drop_last().len() == 1);
        assert(joined(v.drop_last(), sep) == v[0]);
        assert(joined(rest, sep) == v[1]);
    } else {
        lemma_joined_front(v.drop_last(), sep);
        assert(v.drop_last().drop_first() =~= rest.drop_last());
        assert(joined(v, sep) == joined(v.drop_last(), sep) + sep + v.last());
        assert(joined(rest, sep) == joined(rest.drop_last(), sep) + sep + rest.last());
        assert(joined(v, sep) =~= v[0] + sep + joined(rest, sep));
    }
}

/// Whether a text can stand as one line of a file and be read back as it is.
pub open spec fn plain_line(line: Seq<char>) -> bool {
    !line.contains('\n') && (line.len() > 0 ==> line.last() != '\r')
}

/// Lines that are written with an end each are read back as they are.
pub proof fn lines_read_back(v: Seq<Seq<char>>)
    requires
        v.len() > 0,
        forall|i: int| 0 <= i < v.len() ==> plain_line(#[trigger] v[i]),
    ensures
        lines_of(joined(v, "\n"@) + "\n"@) == v,
    decreases v.len(),
{
    reveal_strlit("\n");
    assert("\n"@ =~= seq!['\n']);
    assert(plain_line(v[0]));
    if v.len() == 1 {
        lemma_lines_cons(v[0], Seq::empty());
        assert(v[0] + seq!['\n'] + Seq::<char>::empty() =~= v[0] + seq!['\n']);
        assert(seq![v[0]] + Seq::<Seq<char>>::empty() =~= v);
    } else {
        let rest = v.drop_first();
        assert forall|i: int| 0 <= i < rest.len() implies plain_line(#[trigger] rest[i]) by {
            assert(rest[i] == v[i + 1]);
        }
        lines_read_back(rest);
        lemma_joined_front(v, "\n"@);
        lemma_lines_cons(v[0], joined(rest, "\n"@) + "\n"@);
        assert(joined(v, "\n"@) + "\n"@ =~= v[0] + seq!['\n'] + (joined(rest, "\n"@) + "\n"@));
        assert(seq![v[0]] + rest =~= v);
    }
}

/// So are lines of which the last has no end, unless that last one is empty.
pub proof fn open_lines_read_back(v: Seq<Seq<char>>)
    requires
        v.len() > 0 ==> v.last().len() > 0,
        forall|i: int| 0 <= i < v.len() ==> plain_line(#[trigger] v[i]),
    ensures
        lines_of(joined(v, "\n"@)) == v,
    decreases v.len(),
{
    reveal_strlit("\n");
    assert("\n"@ =~= seq!['\n']);
    if v.len() == 0 {
        assert(lines_of(Seq::<char>::empty()) =~= v);
    } else if v.len() == 1 {
        assert(plain_line(v[0]));
        lemma_lines_one(v[0]);
        assert(seq![v[0]] =~= v);
    } else {
        assert(plain_line(v[0]));
        let rest = v.drop_first();
        assert forall|i: int| 0 <= i < rest.len() implies plain_line(#[trigger] rest[i]) by {
            assert(rest[i] == v[i + 1]);
        }
        open_lines_read_back(rest);
        lemma_joined_front(v, "\n"@);
        lemma_lines_cons(v[0], joined(rest, "\n"@));
        assert(joined(v, "\n"@) =~= v[0] + seq!['\n'] + joined(rest, "\n"@));
        assert(seq![v[0]] + rest =~= v);
    }
}

/// Whether a list of texts holds `name`.
pub fn lists(list: &Vec<String>, name: &str) -> (r: bool)
    ensures
        r == texts(list@).contains(name@),
{
    let mut i: usize = 0;
    while i < list.len()
        invariant
            i <= list@.len(),
            forall|k: int| 0 <= k < i ==> texts(list@)[k] != name@,
        decreases list@.len() - i,
    {
        assert(texts(list@)[i as int] == list@[i as int]@);
        if same(&list[i], name) {
            return true;
        }
        i = i + 1;
    }
    false
}

/// No line of a text holds a line end.
pub proof fn lemma_lines_hold_no_ends(s: Seq<char>, i: int)
    requires
        0 <= i,
    ensures
        forall|k: int| 0 <= k < lines_from(s, i).len() ==> !(#[trigger] lines_from(s, i)[k]).contains('\n'),
        !s.contains('\r') ==> forall|k: int|
            0 <= k < lines_from(s, i).len() ==> !(#[trigger] lines_from(s, i)[k]).contains('\r'),
    decreases s.len() - i,
{
    if i < s.len() {
        lemma_upto(s, '\n', i);
        let j = upto(s, '\n', i);
        let line = if j < s.len() {
            chomped(s.subrange(i, j))
        } else {
            s.subrange(i, s.len() as int)
        };
        assert(forall|m: int| 0 <= m < line.len() ==> line[m] == s[i + m]);
        assert(!line.contains('\n'));
        if !s.contains('\r') {
            assert(!line.contains('\r'));
        }
        if j < s.len() {
            lemma_lines_hold_no_ends(s, j + 1);
            let rest = lines_from(s, j + 1);
            assert forall|k: int| 0 <= k < lines_from(s, i).len() implies !(
            #[trigger] lines_from(s, i)[k]).contains('\n') && (!s.contains('\r') ==> !lines_from(
                s,
                i,
            )[k].contains('\r')) by {
                if k > 0 {
                    assert(lines_from(s, i)[k] == rest[k - 1]);
                }
            }
        }
    }
}

/// A text without carriage returns whose last line has an end is its lines, an
/// end after each.
pub proof fn lemma_lines_rejoined(s: Seq<char>, i: int)
    requires
        0 <= i < s.len(),
        s.last() == '\n',
        !s.contains('\r'),
    ensures
        lines_from(s, i).len() > 0,
        joined(lines_from(s, i), "\n"@) + "\n"@ == s.skip(i),
    decreases s.len() - i,
{
    reveal_strlit("\n");
    assert("\n"@ =~= seq!['\n']);
    lemma_upto(s, '\n', i);
    let j = upto(s, '\n', i);
    if j == s.len() {
        assert(s[s.len() - 1] != '\n');
    }
    let line = s.subrange(i, j);
    if line.len() > 0 {
        assert(line.last() == s[j - 1]);
    }
    assert(chomped(line) == line);
    let rest = lines_from(s, j + 1);
    let all = lines_from(s, i);
    assert(all =~= seq![line] + rest);
    if j + 1 < s.len() {
        lemma_lines_rejoined(s, j + 1);
        lemma_joined_front(all, "\n"@);
        assert(all.drop_first() =~= rest);
        assert(line + "\n"@ + (joined(rest, "\n"@) + "\n"@) =~= s.skip(i));
        assert(joined(all, "\n"@) + "\n"@ =~= line + "\n"@ + (joined(rest, "\n"@) + "\n"@));
    } else {
        assert(all =~= seq![line]);
        assert(joined(all, "\n"@) + "\n"@ =~= s.skip(i));
    }
}

/// Lines that are written with an end each are read back without the carriage
/// return that may end them.
pub proof fn lemma_lines_read_chomped(v: Seq<Seq<char>>)
    requires
        v.len() > 0,
        forall|i: int| 0 <= i < v.len() ==> !(#[trigger] v[i]).contains('\n'),
    ensures
        lines_of(joined(v, "\n"@) + "\n"@) == v.map_values(|l: Seq<char>| chomped(l)),
    decreases v.len(),
{
    reveal_strlit("\n");
    assert("\n"@ =~= seq!['\n']);
    let first = v[0];
    let rest = v.drop_first();
    let after = if v.len() == 1 {
        Seq::<char>::empty()
    } else {
        joined(rest, "\n"@) + "\n"@
    };
    let s = first + seq!['\n'] + after;
    if v.len() == 1 {
        assert(joined(v, "\n"@) + "\n"@ =~= s);
        assert(lines_of(after) =~= Seq::<Seq<char>>::empty());
    } else {
        assert forall|i: int| 0 <= i < rest.len() implies !(#[trigger] rest[i]).contains('\n') by {
            assert(rest[i] == v[i + 1]);
        }
        lemma_lines_read_chomped(rest);
        lemma_joined_front(v, "\n"@);
        assert(joined(v, "\n"@) + "\n"@ =~= s);
    }
    lemma_upto(s, '\n', 0);
    let j = upto(s, '\n', 0);
    assert(s[first.len() as int] == '\n');
    if j < first.len() {
        assert(s[j] == first[j]);
        assert(first.contains('\n'));
    }
    assert(s.subrange(0, j) =~= first);
    lemma_lines_skip(s, j + 1);
    assert(s.skip(j + 1) =~= after);
    assert(lines_of(s) =~= v.map_values(|l: Seq<char>| chomped(l)));
}

proof fn lemma_drop_space(s: Seq<char>, n: int)
    requires
        0 <= n <= s.len(),
    ensures
        0 <= drop_space(s, n) <= n,
        drop_space(s, n) > 0 ==> !is_space(s[drop_space(s, n) - 1]),
        forall|k: int| drop_space(s, n) <= k < n ==> is_space(#[trigger] s[k]),
    decreases n,
{
    if n > 0 && is_space(s[n - 1]) {
        lemma_drop_space(s, n - 1);
    }
}

/// What is trimmed ends in no white space, and trimming it again changes
/// nothing.
pub proof fn lemma_trimmed_end(s: Seq<char>)
    ensures
        trimmed_end(s).len() <= s.len(),
        trimmed_end(s) == s.take(trimmed_end(s).len() as int),
        trimmed_end(s).len() > 0 ==> !is_space(trimmed_end(s).last()),
        forall|k: int| trimmed_end(s).len() <= k < s.len() ==> is_space(#[trigger] s[k]),
        s.len() == 0 || !is_space(s.last()) ==> trimmed_end(s) == s,
{
    lemma_drop_space(s, s.len() as int);
    assert(s.take(s.len() as int) =~= s);
}

/// The characters of a text that are not white space.
pub open spec fn unspaced(s: Seq<char>) -> Seq<char>
    decreases s.len(),
{
    if s.len() == 0 {
        Seq::empty()
    } else if is_space(s.last()) {
        unspaced(s.drop_last())
    } else {
        unspaced(s.drop_last()).push(s.last())
    }
}

/// White space at the end of a text does not count.
pub proof fn lemma_unspaced_take(s: Seq<char>, n: int)
    requires
        0 <= n <= s.len(),
        forall|k: int| n <= k < s.len() ==> is_space(#[trigger] s[k]),
    ensures
        unspaced(s.take(n)) == unspaced(s),
    decreases s.len(),
{
    if n == s.len() {
        assert(s.take(n) =~= s);
    } else {
        lemma_unspaced_take(s.drop_last(), n);
        assert(s.drop_last().take(n) =~= s.take(n));
    }
}

/// A text that does not end in a line end has a last line that ends as it does.
pub proof fn lemma_last_line(s: Seq<char>, i: int)
    requires
        0 <= i < s.len(),
        s.last() != '\n',
    ensures
        lines_from(s, i).len() > 0,
        lines_from(s, i).last().len() > 0,
        lines_from(s, i).last().last() == s.last(),
    decreases s.len() - i,
{
    lemma_upto(s, '\n', i);
    let j = upto(s, '\n', i);
    if j < s.len() {
        lemma_last_line(s, j + 1);
        let rest = lines_from(s, j + 1);
        assert(lines_from(s, i).last() == rest.last());
    }
}

/// Pairs of texts.
pub open spec fn pairs(v: Seq<(String, String)>) -> Seq<(Seq<char>, Seq<char>)> {
    v.map_values(|p: (String, String)| (p.0@, p.1@))
}

pub proof fn lemma_pairs_push(v: Seq<(String, String)>, p: (String, String))
    ensures
        pairs(v.push(p)) == pairs(v).push((p.0@, p.1@)),
{
    assert(pairs(v.push(p)) =~= pairs(v).push((p.0@, p.1@)));
}

/// What counts of two texts, one after the other, is what counts of each.
pub proof fn lemma_unspaced_add(a: Seq<char>, b: Seq<char>)
    ensures
        unspaced(a + b) == unspaced(a) + unspaced(b),
    decreases b.len(),
{
    if b.len() == 0 {
        assert(a + b =~= a);
        assert(unspaced(a) + unspaced(b) =~= unspaced(a));
    } else {
        lemma_unspaced_add(a, b.drop_last());
        assert((a + b).drop_last() =~= a + b.drop_last());
        assert(unspaced(a + b) =~= unspaced(a) + unspaced(b));
    }
}

/// Lines that count for the same count for the same together.
pub proof fn lemma_unspaced_rows(a: Seq<Seq<char>>, b: Seq<Seq<char>>)
    requires
        a.len() == b.len(),
        forall|i: int| 0 <= i < a.len() ==> unspaced(#[trigger] a[i]) == unspaced(b[i]),
    ensures
        unspaced(joined(a, "\n"@)) == unspaced(joined(b, "\n"@)),
    decreases a.len(),
{
    if a.len() > 1 {
        let a1 = a.drop_last();
        let b1 = b.drop_last();
        assert forall|i: int| 0 <= i < a1.len() implies unspaced(#[trigger] a1[i]) == unspaced(
            b1[i],
        ) by {
            assert(a1[i] == a[i]);
        }
        lemma_unspaced_rows(a1, b1);
        lemma_unspaced_add(joined(a1, "\n"@), "\n"@);
        lemma_unspaced_add(joined(a1, "\n"@) + "\n"@, a.last());
        lemma_unspaced_add(joined(b1, "\n"@), "\n"@);
        lemma_unspaced_add(joined(b1, "\n"@) + "\n"@, b.last());
        assert(a[a.len() - 1] == a.last());
    } else if a.len() == 1 {
        assert(unspaced(a[0]) == unspaced(b[0]));
    }
}

/// The lines of a text hold all that counts of it.
pub proof fn lemma_unspaced_lines(s: Seq<char>, i: int)
    requires
        0 <= i <= s.len(),
    ensures
        unspaced(joined(lines_from(s, i), "\n"@)) == unspaced(s.skip(i)),
    decreases s.len() - i,
{
    reveal_strlit("\n");
    assert("\n"@ =~= seq!['\n']);
    assert(unspaced("\n"@) =~= Seq::<char>::empty()) by {
        reveal_with_fuel(unspaced, 2);
        assert(is_space('\n'));
        assert("\n"@.last() == '\n');
        assert("\n"@.drop_last() =~= Seq::<char>::empty());
    }
    if i == s.len() {
        assert(s.skip(i) =~= Seq::<char>::empty());
    } else {
        lemma_upto(s, '\n', i);
        let j = upto(s, '\n', i);
        if j < s.len() {
            let line = s.subrange(i, j);
            let rest = lines_from(s, j + 1);
            let all = lines_from(s, i);
            lemma_unspaced_lines(s, j + 1);
            assert(s.skip(i) =~= line + "\n"@ + s.skip(j + 1));
            lemma_unspaced_add(line, "\n"@);
            lemma_unspaced_add(line + "\n"@, s.skip(j + 1));
            assert(unspaced(line + "\n"@) =~= unspaced(line));
            assert(unspaced(chomped(line)) == unspaced(line));
            if rest.len() == 0 {
                assert(all =~= seq![chomped(line)]);
                assert(unspaced(line) + unspaced(s.skip(j + 1)) =~= unspaced(line));
            } else {
                lemma_joined_front(all, "\n"@);
                assert(all.drop_first() =~= rest);
                lemma_unspaced_add(chomped(line), "\n"@);
                lemma_unspaced_add(chomped(line) + "\n"@, joined(rest, "\n"@));
                assert(unspaced(chomped(line) + "\n"@) =~= unspaced(line));
            }
        } else {
            assert(s.subrange(i, s.len() as int) =~= s.skip(i));
        }
    }
}

/// Two lists of texts joined are one list joined.
pub proof fn lemma_joined_add(a: Seq<Seq<char>>, b: Seq<Seq<char>>, sep: Seq<char>)
    requires
        a.len() > 0,
        b.len() > 0,
    ensures
        joined(a + b, sep) == joined(a, sep) + sep + joined(b, sep),
    decreases b.len(),
{
    assert((a + b).drop_last() =~= a + b.drop_last());
    assert((a + b).last() == b.last());
    if b.len() == 1 {
        assert(b.drop_last() =~= Seq::<Seq<char>>::empty());
        assert(a + b.drop_last() =~= a);
    } else {
        lemma_joined_add(a, b.drop_last(), sep);
        assert(joined(a + b, sep) =~= joined(a, sep) + sep + joined(b, sep));
    }
}

/// The pieces from a position on are the pieces of the rest.
pub proof fn lemma_pieces_skip(s: Seq<char>, c: char, i: int)
    requires
        0 <= i <= s.len(),
    ensures
        pieces_from(s, c, i) == pieces_of(s.skip(i), c),
    decreases s.len() - i,
{
    let rest = s.skip(i);
    lemma_upto(s, c, i);
    lemma_upto_skip(s, c, i);
    let j = upto(s, c, i);
    if j < s.len() {
        lemma_pieces_skip(s, c, j + 1);
        lemma_pieces_skip(rest, c, j + 1 - i);
        assert(rest.skip(j + 1 - i) =~= s.skip(j + 1));
        assert(rest.subrange(0, j - i) =~= s.subrange(i, j));
    } else {
        assert(rest.subrange(0, rest.len() as int) =~= s.subrange(i, s.len() as int));
    }
}

proof fn lemma_replaced_skip(s: Seq<char>, p: Seq<char>, q: Seq<char>, i: int)
    requires
        0 <= i <= s.len(),
    ensures
        replaced_from(s, p, q, i) == replaced(s.skip(i), p, q),
    decreases s.len() - i,
{
    let rest = s.skip(i);
    if i < s.len() {
        assert(rest[0] == s[i]);
        if i + p.len() <= s.len() {
            assert(s.subrange(i, i + p.len()) =~= rest.subrange(0, p.len() as int));
        }
        if p.len() > 0 && occurs_at(s, p, i) {
            let k = p.len() as int;
            lemma_replaced_skip(s, p, q, i + k);
            lemma_replaced_skip(rest, p, q, k);
            assert(rest.skip(k) =~= s.skip(i + k));
        } else {
            lemma_replaced_skip(s, p, q, i + 1);
            lemma_replaced_skip(rest, p, q, 1);
            assert(rest.skip(1) =~= s.skip(i + 1));
        }
    }
}

proof fn lemma_nothing_replaced(s: Seq<char>, p: Seq<char>, q: Seq<char>, i: int, j: int)
    requires
        0 <= i <= j <= s.len(),
        forall|k: int| i <= k < j ==> !occurs_at(s, p, k),
    ensures
        replaced_from(s, p, q, i) == s.subrange(i, j) + replaced_from(s, p, q, j),
    decreases j - i,
{
    if i < j {
        lemma_nothing_replaced(s, p, q, i + 1, j);
        assert(s.subrange(i, j) =~= seq![s[i]] + s.subrange(i + 1, j));
        assert(replaced_from(s, p, q, i) =~= s.subrange(i, j) + replaced_from(s, p, q, j));
    } else {
        assert(replaced_from(s, p, q, i) =~= s.subrange(i, j) + replaced_from(s, p, q, j));
    }
}

/// Replacing touches the occurrences and nothing else: a text without one stays,
/// and what comes before the first one stays, the first one gives way, and what
/// follows is treated the same way.
pub proof fn replacing_touches_the_occurrences(
    a: Seq<char>,
    p: Seq<char>,
    b: Seq<char>,
    q: Seq<char>,
)
    requires
        p.len() > 0,
    ensures
        (forall|k: int| !occurs_at(a, p, k)) ==> replaced(a, p, q) == a,
        (forall|k: int| 0 <= k < a.len() ==> !occurs_at(a + p + b, p, k)) ==> replaced(
            a + p + b,
            p,
            q,
        ) == a + q + replaced(b, p, q),
{
    if forall|k: int| !occurs_at(a, p, k) {
        lemma_nothing_replaced(a, p, q, 0, a.len() as int);
        assert(a.subrange(0, a.len() as int) + Seq::<char>::empty() =~= a);
    }
    let s = a + p + b;
    if forall|k: int| 0 <= k < a.len() ==> !occurs_at(s, p, k) {
        let n = a.len() as int;
        let m = p.len() as int;
        lemma_nothing_replaced(s, p, q, 0, n);
        assert(s.subrange(0, n) =~= a);
        assert(s.subrange(n, n + m) =~= p);
        assert(occurs_at(s, p, n));
        lemma_replaced_skip(s, p, q, n + m);
        assert(s.skip(n + m) =~= b);
        assert(a + (q + replaced(b, p, q)) =~= a + q + replaced(b, p, q));
    }
}

proof fn lemma_skip_space(s: Seq<char>, i: int, j: int)
    requires
        0 <= i <= j <= s.len(),
        forall|k: int| i <= k < j ==> is_space(#[trigger] s[k]),
        j < s.len() ==> !is_space(s[j]),
    ensures
        skip_space(s, i) == j,
    decreases j - i,
{
    if i < j {
        lemma_skip_space(s, i + 1, j);
    }
}

proof fn lemma_drop_space_to(s: Seq<char>, j: int, i: int)
    requires
        0 <= i <= j <= s.len(),
        forall|k: int| i <= k < j ==> is_space(#[trigger] s[k]),
        i > 0 ==> !is_space(s[i - 1]),
    ensures
        drop_space(s, j) == i,
    decreases j - i,
{
    if i < j {
        lemma_drop_space_to(s, j - 1, i);
    }
}

/// Trimming takes the white space at the ends off and leaves what stands between,
/// the white space inside it too.
pub proof fn trimming_takes_the_space_off(a: Seq<char>, s: Seq<char>, b: Seq<char>)
    requires
        forall|k: int| 0 <= k < a.len() ==> is_space(#[trigger] a[k]),
        forall|k: int| 0 <= k < b.len() ==> is_space(#[trigger] b[k]),
        s.len() > 0 ==> !is_space(s[0]) && !is_space(s.last()),
        s.len() == 0 ==> a.len() == 0,
    ensures
        trimmed(a + s + b) == s,
        trimmed_start(a + s) == s,
        trimmed_end(s + b) == s,
        s.len() > 0 ==> trimmed_start(a + s + b) == s + b,
        s.len() > 0 ==> trimmed_end(a + s + b) == a + s,
{
    let all = a + s + b;
    let n = a.len() as int;
    assert((a + s).skip(n) =~= s);
    lemma_skip_space(a + s, 0, n);
    lemma_drop_space_to(s + b, (s + b).len() as int, s.len() as int);
    assert((s + b).take(s.len() as int) =~= s);
    if s.len() > 0 {
        assert(all[n] == s[0]);
        lemma_skip_space(all, 0, n);
        assert(all.skip(n) =~= s + b);
        let m = (a + s).len() as int;
        assert(all[m - 1] == s.last());
        assert forall|k: int| m <= k < all.len() implies is_space(#[trigger] all[k]) by {
            assert(all[k] == b[k - m]);
        }
        lemma_drop_space_to(all, all.len() as int, m);
        assert(all.take(m) =~= a + s);
    } else {
        assert(all =~= b);
        lemma_skip_space(b, 0, b.len() as int);
        assert(b.skip(b.len() as int) =~= Seq::<char>::empty());
        assert(Seq::<char>::empty().take(0) =~= Seq::<char>::empty());
    }
}

proof fn lemma_drop_run_to(s: Seq<char>, c: char, j: int, i: int)
    requires
        0 <= i <= j <= s.len(),
        forall|k: int| i <= k < j ==> s[k] == c,
        i > 0 ==> s[i - 1] != c,
    ensures
        drop_run(s, c, j) == i,
    decreases j - i,
{
    if i < j {
        lemma_drop_run_to(s, c, j - 1, i);
    }
}

proof fn lemma_skip_run_to(s: Seq<char>, c: char, i: int, j: int)
    requires
        0 <= i <= j <= s.len(),
        forall|k: int| i <= k < j ==> s[k] == c,
        j < s.len() ==> s[j] != c,
    ensures
        skip_run(s, c, i) == j,
    decreases j - i,
{
    if i < j {
        lemma_skip_run_to(s, c, i + 1, j);
    }
}

/// A run of one character is dropped at the end, or at both ends, and nowhere
/// else.
pub proof fn runs_are_dropped_at_the_ends(a: Seq<char>, s: Seq<char>, b: Seq<char>, c: char)
    requires
        forall|k: int| 0 <= k < a.len() ==> a[k] == c,
        forall|k: int| 0 <= k < b.len() ==> b[k] == c,
        s.len() > 0,
        s[0] != c,
        s.last() != c,
    ensures
        without_tail_run(s + b, c) == s,
        without_runs(a + s + b, c) == s,
{
    let n = s.len() as int;
    lemma_drop_run_to(s + b, c, (s + b).len() as int, n);
    assert((s + b).take(n) =~= s);
    let all = a + s + b;
    lemma_skip_run_to(all, c, 0, a.len() as int);
    assert(all.skip(a.len() as int) =~= s + b);
}

proof fn lemma_upto_at(s: Seq<char>, c: char, i: int, j: int)
    requires
        0 <= i <= j <= s.len(),
        forall|k: int| i <= k < j ==> s[k] != c,
        j < s.len() ==> s[j] == c,
    ensures
        upto(s, c, i) == j,
    decreases j - i,
{
    if i < j {
        lemma_upto_at(s, c, i + 1, j);
    }
}

/// Text is cut at the first of the characters asked for: what stands before it
/// holds none, what stands after it may. Text without one is not cut.
pub proof fn text_is_cut_at_the_first(a: Seq<char>, b: Seq<char>, c: char)
    requires
        !a.contains(c),
    ensures
        cut(a + seq![c] + b, c) == Some((a, b)),
        head(a + seq![c] + b, c) == a,
        tail(a + seq![c] + b, c) == b,
        cut(a, c) is None,
        head(a, c) == a,
        tail(a, c) == Seq::<char>::empty(),
{
    let s = a + seq![c] + b;
    let n = a.len() as int;
    assert forall|k: int| 0 <= k < n implies s[k] != c && a[k] != c by {
        assert(a.contains(a[k]));
    }
    lemma_upto_at(s, c, 0, n);
    lemma_upto_at(a, c, 0, n);
    assert(s.take(n) =~= a);
    assert(s.skip(n + 1) =~= b);
    assert(a.take(n) =~= a);
}

/// Pieces that were joined with a character that none of them holds come apart
/// again, empty ones too.
pub proof fn pieces_come_apart_again(v: Seq<Seq<char>>, c: char)
    requires
        v.len() > 0,
        forall|k: int| 0 <= k < v.len() ==> !(#[trigger] v[k]).contains(c),
    ensures
        pieces_of(joined(v, seq![c]), c) == v,
    decreases v.len(),
{
    if v.len() == 1 {
        let s = v[0];
        assert(v.drop_last() =~= Seq::<Seq<char>>::empty());
        assert(joined(v, seq![c]) =~= s);
        assert forall|k: int| 0 <= k < s.len() implies s[k] != c by {
            assert(s.contains(s[k]));
        }
        lemma_upto_at(s, c, 0, s.len() as int);
        assert(s.subrange(0, s.len() as int) =~= s);
        assert(pieces_of(s, c) =~= v);
    } else {
        let rest = v.skip(1);
        assert forall|k: int| 0 <= k < rest.len() implies !(#[trigger] rest[k]).contains(c) by {
            assert(rest[k] == v[k + 1]);
        }
        pieces_come_apart_again(rest, c);
        let one = seq![v[0]];
        assert(v =~= one + rest);
        lemma_joined_add(one, rest, seq![c]);
        assert(one.drop_last() =~= Seq::<Seq<char>>::empty());
        assert(joined(one, seq![c]) =~= v[0]);
        let s = v[0] + seq![c] + joined(rest, seq![c]);
        assert(joined(v, seq![c]) =~= s);
        let n = v[0].len() as int;
        assert forall|k: int| 0 <= k < n implies s[k] != c by {
            assert(v[0].contains(v[0][k]));
        }
        lemma_upto_at(s, c, 0, n);
        lemma_pieces_skip(s, c, n + 1);
        assert(s.skip(n + 1) =~= joined(rest, seq![c]));
        assert(s.subrange(0, n) =~= v[0]);
        assert(pieces_of(s, c) =~= v);
    }
}

/// What is looked for is found where it first stands, and not found exactly where
/// it stands nowhere.
pub proof fn found_where_it_first_stands(s: Seq<char>, p: Seq<char>, i: int)
    requires
        0 <= i <= s.len() + 1,
    ensures
        match found_from(s, p, i) {
            Some(k) => {
                &&& i <= k
                &&& k + p.len() <= s.len()
                &&& s.skip(k).take(p.len() as int) == p
                &&& forall|m: int|
                    i <= m < k ==> s.skip(m).take(p.len() as int) != p || m + p.len() > s.len()
            },
            None => forall|m: int|
                i <= m && m + p.len() <= s.len() ==> #[trigger] s.skip(m).take(p.len() as int) != p,
        },
    decreases s.len() + 1 - i,
{
    assert forall|m: int| 0 <= m && m + p.len() <= s.len() implies s.subrange(m, m + p.len())
        == #[trigger] s.skip(m).take(p.len() as int) by {
        assert(s.subrange(m, m + p.len()) =~= s.skip(m).take(p.len() as int));
    }
    if i + p.len() <= s.len() && !occurs_at(s, p, i) {
        found_where_it_first_stands(s, p, i + 1);
    }
}

/// A signed number of 32 bits reads back from its decimal notation.
pub proof fn signed_numbers_read_back(n: int)
    requires
        i32::MIN <= n <= i32::MAX,
    ensures
        parsed_i32(signed_decimal(n)) == Some(n),
{
    if n < 0 {
        let m = (-n) as nat;
        reveal_strlit("-");
        lemma_decimal(m);
        assert(signed_decimal(n).skip(1) =~= decimal(m));
    } else {
        lemma_decimal(n as nat);
        decimal_reads_back(n as nat);
        assert(is_digit(decimal(n as nat)[0]));
    }
}

/// Of the ASCII characters the letters alone change case, and change to the letter
/// they are the capital of.
pub proof fn capitals_become_small(c: char)
    ensures
        'A' <= c <= 'Z' ==> 'a' <= lower(c) <= 'z' && lower(c) as u32 - 'a' as u32 == c as u32
            - 'A' as u32,
        !('A' <= c <= 'Z') ==> lower(c) == c,
{
}

proof fn lemma_drop_space_stops(s: Seq<char>, j: int)
    requires
        1 <= j <= s.len(),
        !is_space(s[0]),
    ensures
        1 <= drop_space(s, j) <= j,
    decreases j,
{
    if j > 1 && is_space(s[j - 1]) {
        lemma_drop_space_stops(s, j - 1);
    }
}

/// Indentation is what stands before the first character that is no white space.
pub proof fn lemma_indent(pad: Seq<char>, s: Seq<char>)
    requires
        forall|k: int| 0 <= k < pad.len() ==> is_space(#[trigger] pad[k]),
        s.len() > 0,
        !is_space(s[0]),
    ensures
        trimmed_start(pad + s) == s,
        trimmed(pad + s).len() > 0,
{
    let all = pad + s;
    assert(all[pad.len() as int] == s[0]);
    lemma_skip_space(all, 0, pad.len() as int);
    assert(all.skip(pad.len() as int) =~= s);
    lemma_drop_space_stops(s, s.len() as int);
}

/// White space alone trims to nothing.
pub proof fn lemma_blank(pad: Seq<char>)
    requires
        forall|k: int| 0 <= k < pad.len() ==> is_space(#[trigger] pad[k]),
    ensures
        trimmed(pad) == Seq::<char>::empty(),
{
    lemma_skip_space(pad, 0, pad.len() as int);
    assert(pad.skip(pad.len() as int) =~= Seq::<char>::empty());
    assert(Seq::<char>::empty().take(0) =~= Seq::<char>::empty());
}

/// A run at the end of a text is dropped whole.
pub proof fn lemma_tail_run(s: Seq<char>, b: Seq<char>, c: char)
    requires
        forall|k: int| 0 <= k < b.len() ==> b[k] == c,
        s.len() > 0,
        s.last() != c,
    ensures
        without_tail_run(s + b, c) == s,
{
    let n = s.len() as int;
    lemma_drop_run_to(s + b, c, (s + b).len() as int, n);
    assert((s + b).take(n) =~= s);
}

/// Of a run alone nothing stays.
pub proof fn lemma_all_dropped(b: Seq<char>, c: char)
    requires
        forall|k: int| 0 <= k < b.len() ==> b[k] == c,
    ensures
        without_tail_run(b, c) == Seq::<char>::empty(),
{
    lemma_drop_run_to(b, c, b.len() as int, 0);
    assert(b.take(0) =~= Seq::<char>::empty());
}

} // verus!
