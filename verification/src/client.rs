//! What a model's reply means: the event stream, the guard against runaway
//! repetition, and which endpoint serves a model.

use crate::config::Config;
use crate::config::ModelCfg;
use crate::config::ModelV;
use crate::json;
use crate::json::json_is_object;
use crate::json::json_item;
use crate::json::json_len;
use crate::json::json_member;
use crate::json::json_value;
use crate::json::str_member;
use crate::json::u64_member;
use crate::table::lookup;
use crate::text;
use crate::text::byte_len;
use crate::text::decimal;
use crate::text::fit;
use crate::text::opt_text;
use crate::text::stripped;
use crate::text::texts;
use crate::text::trimmed;
use vstd::prelude::*;
use vstd::utf8::encode_utf8;

verus! {

// ---------------------------------------------------------------------------
// Repetition
// ---------------------------------------------------------------------------

/// Longest repeated block the loop guard can see. Sized for a full command
/// line: models loop on one-liner pipelines verbatim.
pub const MAX_PERIOD: usize = 640;

/// How much of the stream's end the guard keeps: three of the longest blocks.
pub const TAIL_MAX: usize = 1920;

/// How many equal characters in a row count as collapse. Legitimate ASCII art
/// stays well below, while true collapse runs on without end.
pub const RUN_MAX: u32 = 240;

/// The same for two characters in turn.
pub const PAIR_MAX: u32 = 480;

/// How many bytes may come between two scans for repeated phrases.
pub const SCAN_EVERY: usize = 48;

/// Whether the bytes end with three identical blocks of `p` bytes that hold at
/// least five different bytes.
pub open spec fn ends_in_loop(tail: Seq<u8>, p: int) -> bool {
    let n = tail.len();
    &&& 20 <= p <= MAX_PERIOD
    &&& 3 * p <= n
    &&& tail.subrange(n - p, n as int) == tail.subrange(n - 2 * p, n - p)
    &&& tail.subrange(n - 2 * p, n - p) == tail.subrange(n - 3 * p, n - 2 * p)
    &&& tail.subrange(n - p, n as int).to_set().len() >= 5
}

/// Whether the bytes end in a repeated phrase.
pub open spec fn is_phrase_loop(tail: Seq<u8>) -> bool {
    exists|p: int| ends_in_loop(tail, p)
}

fn blocks_equal(v: &Vec<u8>, i: usize, j: usize, p: usize) -> (r: bool)
    requires
        i + p <= v@.len(),
        j + p <= v@.len(),
        i + p <= usize::MAX,
        j + p <= usize::MAX,
    ensures
        r == (v@.subrange(i as int, i + p) == v@.subrange(j as int, j + p)),
{
    let mut k: usize = 0;
    while k < p
        invariant
            k <= p,
            i + p <= v@.len(),
            j + p <= v@.len(),
            i + p <= usize::MAX,
            j + p <= usize::MAX,
            v@.subrange(i as int, i + k) == v@.subrange(j as int, j + k),
        decreases p - k,
    {
        if v[i + k] != v[j + k] {
            proof {
                assert(v@.subrange(i as int, i + p)[k as int] != v@.subrange(j as int, j + p)[k as int]);
            }
            return false;
        }
        proof {
            assert(v@.subrange(i as int, i + k + 1) =~= v@.subrange(i as int, i + k).push(
                v@[i + k],
            ));
            assert(v@.subrange(j as int, j + k + 1) =~= v@.subrange(j as int, j + k).push(
                v@[j + k],
            ));
        }
        k = k + 1;
    }
    true
}

proof fn lemma_set_push(s: Seq<u8>, x: u8)
    ensures
        s.to_set().finite(),
        s.push(x).to_set() == s.to_set().insert(x),
        s.push(x).to_set().len() == s.to_set().len() + (if s.contains(x) {
            0int
        } else {
            1int
        }),
{
    broadcast use vstd::seq_lib::seq_to_set_is_finite;

    s.lemma_push_to_set_commute(x);
}

fn distinct(v: &Vec<u8>, a: usize, b: usize) -> (n: usize)
    requires
        a <= b <= v@.len(),
    ensures
        n == v@.subrange(a as int, b as int).to_set().len(),
{
    let mut seen: Vec<bool> = Vec::new();
    while seen.len() < 256
        invariant
            seen@.len() <= 256,
            forall|k: int| 0 <= k < seen@.len() ==> !seen@[k],
        decreases 256 - seen@.len(),
    {
        seen.push(false);
    }
    let mut n: usize = 0;
    let mut i: usize = a;
    proof {
        assert(v@.subrange(a as int, a as int) =~= Seq::<u8>::empty());
        assert(Seq::<u8>::empty().to_set() =~= Set::<u8>::empty());
    }
    while i < b
        invariant
            a <= i <= b <= v@.len(),
            seen@.len() == 256,
            n <= i - a,
            n == v@.subrange(a as int, i as int).to_set().len(),
            forall|k: int|
                0 <= k < 256 ==> (#[trigger] seen@[k] <==> v@.subrange(
                    a as int,
                    i as int,
                ).contains(k as u8)),
        decreases b - i,
    {
        let ghost part = v@.subrange(a as int, i as int);
        let x = v[i];
        proof {
            lemma_set_push(part, x);
            assert(v@.subrange(a as int, i + 1) =~= part.push(x));
            assert(seen@[x as int] <==> part.contains(x));
        }
        if !seen[x as usize] {
            n = n + 1;
        }
        let ghost seen0 = seen@;
        seen.set(x as usize, true);
        proof {
            assert forall|k: int| 0 <= k < 256 implies (#[trigger] seen@[k] <==> part.push(
                x,
            ).contains(k as u8)) by {
                assert(seen0[k] <==> part.contains(k as u8));
                if part.contains(k as u8) {
                    let m = choose|m: int| 0 <= m < part.len() && part[m] == k as u8;
                    assert(part.push(x)[m] == k as u8);
                }
                if k == x {
                    assert(part.push(x)[part.len() as int] == k as u8);
                }
            }
        }
        i = i + 1;
    }
    n
}

/// Sentence-level repetition: the tail ends with three identical consecutive
/// blocks of 20 to `MAX_PERIOD` bytes. Blocks of a single repeated character
/// are the run guard's job (and legitimate as ASCII art), so a phrase must
/// have some variety to count.
pub fn phrase_loop(tail: &Vec<u8>) -> (r: bool)
    ensures
        r == is_phrase_loop(tail@),
{
    let n = tail.len();
    let mut p: usize = 20;
    while p <= MAX_PERIOD
        invariant
            n == tail@.len(),
            20 <= p <= MAX_PERIOD + 1,
            forall|q: int| 20 <= q < p ==> !ends_in_loop(tail@, q),
        decreases MAX_PERIOD + 1 - p,
    {
        if n < 3 * p {
            return false;
        }
        if blocks_equal(tail, n - p, n - 2 * p, p) && blocks_equal(tail, n - 2 * p, n - 3 * p, p)
            && distinct(tail, n - p, n) >= 5 {
            assert(ends_in_loop(tail@, p as int));
            return true;
        }
        p = p + 1;
    }
    false
}

/// What the guard remembers of a stream.
pub struct Guard {
    last: char,
    run: u32,
    before: char,
    pair_run: u32,
    tail: Vec<u8>,
    since_scan: usize,
}

/// The state of the guard.
#[verifier::ext_equal]
pub struct GuardV {
    /// The last character, and how many of it in a row.
    pub last: char,
    pub run: nat,
    /// The character before it, and how many characters in a row were equal to
    /// the one two before them.
    pub before: char,
    pub pair_run: nat,
    /// The end of the stream.
    pub tail: Seq<u8>,
    /// Bytes since the last scan for phrases.
    pub since_scan: nat,
}

impl View for Guard {
    type V = GuardV;

    closed spec fn view(&self) -> GuardV {
        GuardV {
            last: self.last,
            run: self.run as nat,
            before: self.before,
            pair_run: self.pair_run as nat,
            tail: self.tail@,
            since_scan: self.since_scan as nat,
        }
    }
}

/// The guard after one character.
pub open spec fn watched(g: GuardV, c: char) -> GuardV {
    GuardV {
        last: c,
        run: if c == g.last {
            g.run + 1
        } else {
            1
        },
        before: g.last,
        pair_run: if c == g.before {
            g.pair_run + 1
        } else {
            1
        },
        ..g
    }
}

/// Whether the characters so far are a collapse.
pub open spec fn collapsed(g: GuardV) -> bool {
    g.run >= RUN_MAX || g.pair_run >= PAIR_MAX
}

/// The guard after the characters of `s` from `i` on, up to the first collapse;
/// `None` at a collapse.
pub open spec fn watched_all(g: GuardV, s: Seq<char>, i: int) -> Option<GuardV>
    decreases s.len() - i,
{
    if 0 <= i < s.len() {
        let next = watched(g, s[i]);
        if collapsed(next) {
            None
        } else {
            watched_all(next, s, i + 1)
        }
    } else {
        Some(g)
    }
}

/// The last `n` bytes of `s`.
pub open spec fn last_bytes(s: Seq<u8>, n: int) -> Seq<u8> {
    if s.len() > n {
        s.skip(s.len() - n)
    } else {
        s
    }
}

/// The guard after one more piece of the stream; `None` where the stream has
/// collapsed into repetition and has to be cut.
pub open spec fn guarded(g: GuardV, delta: Seq<char>) -> Option<GuardV> {
    match watched_all(g, delta, 0) {
        None => None,
        Some(w) => {
            let bytes = encode_utf8(delta);
            let tail = last_bytes(g.tail + bytes, TAIL_MAX as int);
            let since = g.since_scan + bytes.len();
            if since >= SCAN_EVERY {
                if is_phrase_loop(tail) {
                    None
                } else {
                    Some(GuardV { tail, since_scan: 0, ..w })
                }
            } else {
                Some(GuardV { tail, since_scan: since, ..w })
            }
        },
    }
}

/// A guard that has seen nothing.
pub open spec fn fresh_guard() -> GuardV {
    GuardV {
        last: '\0',
        run: 0,
        before: '\0',
        pair_run: 0,
        tail: Seq::empty(),
        since_scan: 0,
    }
}

impl Guard {
    /// The stream has not collapsed so far.
    pub closed spec fn wf(self) -> bool {
        &&& self.run < RUN_MAX
        &&& self.pair_run < PAIR_MAX
        &&& self.tail@.len() <= TAIL_MAX
        &&& self.since_scan < SCAN_EVERY
    }

    pub fn new() -> (r: Guard)
        ensures
            r.wf(),
            r@ == fresh_guard(),
    {
        Guard {
            last: '\0',
            run: 0,
            before: '\0',
            pair_run: 0,
            tail: Vec::new(),
            since_scan: 0,
        }
    }

    /// Takes in one piece of the stream and says whether it may go on. After a
    /// collapse the guard is done.
    pub fn accept(&mut self, delta: &str) -> (r: bool)
        requires
            old(self).wf(),
        ensures
            r == (guarded(old(self)@, delta@) is Some),
            r ==> final(self).wf() && Some(final(self)@) == guarded(old(self)@, delta@),
    {
        let ghost g0 = self@;
        let v = text::chars_of(delta);
        let mut i: usize = 0;
        while i < v.len()
            invariant
                i <= v@.len(),
                v@ == delta@,
                self.wf(),
                self.tail@ == g0.tail,
                self.since_scan == g0.since_scan,
                watched_all(g0, delta@, 0) == watched_all(self@, delta@, i as int),
                g0 == old(self)@,
            decreases v@.len() - i,
        {
            let c = v[i];
            self.run = if c == self.last {
                self.run + 1
            } else {
                1
            };
            self.pair_run = if c == self.before {
                self.pair_run + 1
            } else {
                1
            };
            self.before = self.last;
            self.last = c;
            if self.run >= RUN_MAX || self.pair_run >= PAIR_MAX {
                return false;
            }
            i = i + 1;
        }
        let bytes = delta.as_bytes();
        let mut k: usize = 0;
        let ghost w = self@;
        // Only the end of a long piece can matter.
        let from: usize = if bytes.len() > TAIL_MAX {
            bytes.len() - TAIL_MAX
        } else {
            0
        };
        let keep: usize = TAIL_MAX - (bytes.len() - from);
        let mut tail: Vec<u8> = Vec::new();
        let skip: usize = if self.tail.len() > keep {
            self.tail.len() - keep
        } else {
            0
        };
        k = skip;
        while k < self.tail.len()
            invariant
                skip <= k <= self.tail@.len(),
                tail@ == self.tail@.subrange(skip as int, k as int),
                self@ == w,
                self.wf(),
            decreases self.tail@.len() - k,
        {
            tail.push(self.tail[k]);
            k = k + 1;
        }
        let ghost head = tail@;
        k = from;
        while k < bytes.len()
            invariant
                from <= k <= bytes@.len(),
                tail@ == head + bytes@.subrange(from as int, k as int),
            decreases bytes@.len() - k,
        {
            tail.push(bytes[k]);
            assert(tail@ =~= head + bytes@.subrange(from as int, k + 1));
            k = k + 1;
        }
        proof {
            let all = g0.tail + bytes@;
            assert(tail@ =~= last_bytes(all, TAIL_MAX as int));
        }
        self.tail = tail;
        if bytes.len() >= SCAN_EVERY || self.since_scan + bytes.len() >= SCAN_EVERY {
            self.since_scan = 0;
            if phrase_loop(&self.tail) {
                return false;
            }
        } else {
            self.since_scan = self.since_scan + bytes.len();
        }
        true
    }
}

/// A run of one character that reaches the limit is always cut, whatever came
/// before it.
pub proof fn a_long_run_is_always_cut(g: GuardV, c: char, s: Seq<char>, i: int)
    requires
        0 <= i <= s.len(),
        s.len() - i + (if g.last == c {
            g.run as int
        } else {
            0
        }) >= RUN_MAX,
        s.len() - i >= 1,
        forall|k: int| i <= k < s.len() ==> s[k] == c,
    ensures
        watched_all(g, s, i) is None,
    decreases s.len() - i,
{
    let next = watched(g, s[i]);
    if !collapsed(next) {
        if i + 1 < s.len() {
            a_long_run_is_always_cut(next, c, s, i + 1);
        }
    }
}

// ---------------------------------------------------------------------------
// The event stream
// ---------------------------------------------------------------------------

/// Tokens as the provider counts them: sent, of those from its cache (`None`
/// where it does not say), and generated.
#[derive(Clone, Copy, PartialEq, Eq, Structural)]
pub struct Usage {
    pub prompt: u64,
    pub cached: Option<u64>,
    pub completion: u64,
}

pub struct StreamStats {
    pub ttft_ms: u128,
    pub total_ms: u128,
    pub out_chars: usize,
    /// "length" means the output was guillotined by max_tokens mid-message.
    pub finish_reason: Option<String>,
    /// Exact usage from the provider (0 when not reported).
    pub prompt_tokens: u64,
    /// None when the provider's usage block does not say.
    pub cached_tokens: Option<u64>,
    pub completion_tokens: u64,
}

/// What the statistics of a reply say.
#[verifier::ext_equal]
pub struct StatsV {
    pub ttft_ms: u128,
    pub total_ms: u128,
    pub out_chars: usize,
    pub finish_reason: Option<Seq<char>>,
    pub prompt_tokens: u64,
    pub cached_tokens: Option<u64>,
    pub completion_tokens: u64,
}

impl View for StreamStats {
    type V = StatsV;

    open spec fn view(&self) -> StatsV {
        StatsV {
            ttft_ms: self.ttft_ms,
            total_ms: self.total_ms,
            out_chars: self.out_chars,
            finish_reason: opt_text(self.finish_reason),
            prompt_tokens: self.prompt_tokens,
            cached_tokens: self.cached_tokens,
            completion_tokens: self.completion_tokens,
        }
    }
}

/// What the data of one event says.
#[verifier::ext_equal]
pub struct ChunkV {
    pub finish: Option<Seq<char>>,
    pub usage: Option<Usage>,
    pub delta: Option<Seq<char>>,
}

/// The first choice of a reply.
pub open spec fn first_choice(v: serde_json::Value) -> serde_json::Value {
    json_item(json_member(v, "choices"@), 0)
}

pub open spec fn or_zero(n: Option<u64>) -> u64 {
    match n {
        Some(x) => x,
        None => 0,
    }
}

/// The usage block of a reply, if it has one.
pub open spec fn usage_in(v: serde_json::Value) -> Option<Usage> {
    let u = json_member(v, "usage"@);
    if json_is_object(u) {
        Some(
            Usage {
                prompt: or_zero(u64_member(u, "prompt_tokens"@)),
                cached: u64_member(json_member(u, "prompt_tokens_details"@), "cached_tokens"@),
                completion: or_zero(u64_member(u, "completion_tokens"@)),
            },
        )
    } else {
        None
    }
}

/// What a chunk of the stream holds.
pub open spec fn chunk_in(v: serde_json::Value) -> ChunkV {
    ChunkV {
        finish: str_member(first_choice(v), "finish_reason"@),
        usage: usage_in(v),
        delta: str_member(json_member(first_choice(v), "delta"@), "content"@),
    }
}

/// What one line of the event stream is.
pub enum LineV {
    /// Not a data line, or not JSON.
    Noise,
    /// The end of the stream.
    End,
    Data(ChunkV),
}

/// Reads one line of the event stream.
pub open spec fn line_in(line: Seq<char>) -> LineV {
    match stripped(line, "data: "@) {
        None => LineV::Noise,
        Some(data) => if trimmed(data) == "[DONE]"@ {
            LineV::End
        } else {
            match json_value(data) {
                Ok(v) => LineV::Data(chunk_in(v)),
                Err(_) => LineV::Noise,
            }
        },
    }
}

fn number_or_zero(n: Option<u64>) -> (r: u64)
    ensures
        r == or_zero(n),
{
    match n {
        Some(x) => x,
        None => 0,
    }
}

fn read_usage(v: &serde_json::Value) -> (r: Option<Usage>)
    ensures
        r == usage_in(*v),
{
    let u = json::member(v, "usage");
    if u.is_object() {
        Some(
            Usage {
                prompt: number_or_zero(json::number_at(u, "prompt_tokens")),
                cached: json::number_at(json::member(u, "prompt_tokens_details"), "cached_tokens"),
                completion: number_or_zero(json::number_at(u, "completion_tokens")),
            },
        )
    } else {
        None
    }
}

/// A chunk of the stream.
pub struct Chunk {
    pub finish: Option<String>,
    pub usage: Option<Usage>,
    pub delta: Option<String>,
}

impl View for Chunk {
    type V = ChunkV;

    open spec fn view(&self) -> ChunkV {
        ChunkV {
            finish: opt_text(self.finish),
            usage: self.usage,
            delta: opt_text(self.delta),
        }
    }
}

/// A line of the event stream.
pub enum Line {
    Noise,
    End,
    Data(Chunk),
}

impl View for Line {
    type V = LineV;

    open spec fn view(&self) -> LineV {
        match *self {
            Line::Noise => LineV::Noise,
            Line::End => LineV::End,
            Line::Data(c) => LineV::Data(c@),
        }
    }
}

/// Reads one line of the event stream.
pub fn read_line(line: &str) -> (r: Line)
    ensures
        r@ == line_in(line@),
{
    let data = match text::strip_prefix(line, "data: ") {
        Some(d) => d,
        None => {
            return Line::Noise;
        },
    };
    if text::same(&text::trim(&data), "[DONE]") {
        return Line::End;
    }
    match json::parse_json(&data) {
        Ok(v) => {
            let choice = json::item(json::member(&v, "choices"), 0);
            Line::Data(
                Chunk {
                    finish: json::string_at(choice, "finish_reason"),
                    usage: read_usage(&v),
                    delta: json::string_at(json::member(choice, "delta"), "content"),
                },
            )
        },
        Err(_) => Line::Noise,
    }
}

/// A reply that is being received.
pub struct Stream {
    guard: Guard,
    out_chars: usize,
    finish: Option<String>,
    usage: Usage,
    cut: bool,
}

/// The state of a reply.
#[verifier::ext_equal]
pub struct StreamV {
    pub guard: GuardV,
    /// Bytes of text so far.
    pub out: nat,
    pub finish: Option<Seq<char>>,
    pub usage: Usage,
    /// The guard has cut the stream.
    pub cut: bool,
}

impl View for Stream {
    type V = StreamV;

    closed spec fn view(&self) -> StreamV {
        StreamV {
            guard: self.guard@,
            out: self.out_chars as nat,
            finish: opt_text(self.finish),
            usage: self.usage,
            cut: self.cut,
        }
    }
}

/// What to do after one line of the stream.
pub enum Flow {
    /// Read on.
    Continue,
    /// Hand this text on and read on.
    Deliver(String),
    /// Stop reading.
    Stop,
}

pub enum FlowV {
    Continue,
    Deliver(Seq<char>),
    Stop,
}

impl View for Flow {
    type V = FlowV;

    open spec fn view(&self) -> FlowV {
        match *self {
            Flow::Continue => FlowV::Continue,
            Flow::Deliver(t) => FlowV::Deliver(t@),
            Flow::Stop => FlowV::Stop,
        }
    }
}

pub open spec fn capped_sum(a: nat, b: nat) -> nat {
    if a + b <= usize::MAX {
        a + b
    } else {
        usize::MAX as nat
    }
}

/// The reply after one chunk: the finish reason and the usage are taken over,
/// text is handed on as long as the guard accepts it.
pub open spec fn received(st: StreamV, c: ChunkV) -> (StreamV, FlowV) {
    let st1 = StreamV {
        finish: if c.finish is Some {
            c.finish
        } else {
            st.finish
        },
        usage: match c.usage {
            Some(u) => u,
            None => st.usage,
        },
        ..st
    };
    match c.delta {
        Some(d) => if d.len() == 0 {
            (st1, FlowV::Continue)
        } else {
            let st2 = StreamV { out: capped_sum(st.out, byte_len(d)), ..st1 };
            match guarded(st.guard, d) {
                Some(g) => (StreamV { guard: g, ..st2 }, FlowV::Deliver(d)),
                None => (
                    StreamV { finish: Some("degenerate"@), cut: true, ..st2 },
                    FlowV::Stop,
                ),
            }
        },
        None => (st1, FlowV::Continue),
    }
}

/// The reply after one line of the event stream.
pub open spec fn received_line(st: StreamV, line: Seq<char>) -> (StreamV, FlowV) {
    match line_in(line) {
        LineV::Noise => (st, FlowV::Continue),
        LineV::End => (st, FlowV::Stop),
        LineV::Data(c) => received(st, c),
    }
}

impl Stream {
    /// The guard is sound while the stream has not been cut.
    pub closed spec fn wf(self) -> bool {
        !self.cut ==> self.guard.wf()
    }

    pub fn new() -> (r: Stream)
        ensures
            r.wf(),
            r@ == (StreamV {
                guard: fresh_guard(),
                out: 0,
                finish: None,
                usage: Usage { prompt: 0, cached: None, completion: 0 },
                cut: false,
            }),
    {
        Stream {
            guard: Guard::new(),
            out_chars: 0,
            finish: None,
            usage: Usage { prompt: 0, cached: None, completion: 0 },
            cut: false,
        }
    }

    /// Takes in what one chunk says.
    pub fn receive(&mut self, c: Chunk) -> (r: Flow)
        requires
            old(self).wf(),
            !old(self)@.cut,
        ensures
            final(self).wf(),
            r@ == received(old(self)@, c@).1,
            final(self)@ == (StreamV {
                guard: final(self)@.guard,
                ..received(old(self)@, c@).0
            }),
            !final(self)@.cut ==> final(self)@ == received(old(self)@, c@).0,
    {
        if c.finish.is_some() {
            self.finish = c.finish;
        }
        if let Some(u) = c.usage {
            self.usage = u;
        }
        match c.delta {
            Some(d) => {
                if text::empty(&d) {
                    return Flow::Continue;
                }
                let n = text::bytes_in(&d);
                self.out_chars = if n <= usize::MAX - self.out_chars {
                    self.out_chars + n
                } else {
                    usize::MAX
                };
                if self.guard.accept(&d) {
                    Flow::Deliver(d)
                } else {
                    self.finish = Some("degenerate".to_string());
                    self.cut = true;
                    Flow::Stop
                }
            },
            None => Flow::Continue,
        }
    }

    /// Takes in one line of the event stream.
    pub fn line(&mut self, line: &str) -> (r: Flow)
        requires
            old(self).wf(),
            !old(self)@.cut,
        ensures
            final(self).wf(),
            r@ == received_line(old(self)@, line@).1,
            final(self)@ == (StreamV {
                guard: final(self)@.guard,
                ..received_line(old(self)@, line@).0
            }),
            !final(self)@.cut ==> final(self)@ == received_line(old(self)@, line@).0,
    {
        match read_line(line) {
            Line::Noise => Flow::Continue,
            Line::End => Flow::Stop,
            Line::Data(c) => self.receive(c),
        }
    }

    /// What the whole reply came to.
    pub fn stats(self, ttft_ms: u128, total_ms: u128) -> (r: StreamStats)
        ensures
            r.ttft_ms == ttft_ms,
            r.total_ms == total_ms,
            r.out_chars == self@.out,
            opt_text(r.finish_reason) == self@.finish,
            r.prompt_tokens == self@.usage.prompt,
            r.cached_tokens == self@.usage.cached,
            r.completion_tokens == self@.usage.completion,
    {
        StreamStats {
            ttft_ms,
            total_ms,
            out_chars: self.out_chars,
            finish_reason: self.finish,
            prompt_tokens: self.usage.prompt,
            cached_tokens: self.usage.cached,
            completion_tokens: self.usage.completion,
        }
    }
}

/// A reply that was cut for repetition says so, and only such a reply stops
/// with text that was not handed on.
pub proof fn a_cut_reply_is_degenerate(st: StreamV, c: ChunkV)
    requires
        !st.cut,
    ensures
        received(st, c).0.cut <==> received(st, c).1 is Stop,
        received(st, c).0.cut ==> received(st, c).0.finish == Some("degenerate"@),
        received(st, c).1 matches FlowV::Deliver(t) ==> c.delta == Some(t) && guarded(st.guard, t)
            is Some,
{
}

// ---------------------------------------------------------------------------
// Replies in one piece
// ---------------------------------------------------------------------------

/// The text of a reply that came in one piece.
pub open spec fn content_in(v: serde_json::Value) -> Option<Seq<char>> {
    str_member(json_member(first_choice(v), "message"@), "content"@)
}

/// The text of a reply that came in one piece; the reason where there is none.
pub fn completion_text(body: &str) -> (r: Result<String, String>)
    ensures
        match json_value(body@) {
            Err(why) => r matches Err(e) && e@ == "bad json: "@ + why,
            Ok(v) => match content_in(v) {
                Some(t) => r matches Ok(s) && s@ == t,
                None => r matches Err(e) && e@ == "no content in response"@,
            },
        },
{
    match json::parse_json(body) {
        Err(why) => {
            let mut e = "bad json: ".to_string();
            e.append(&why);
            Err(e)
        },
        Ok(v) => {
            let choice = json::item(json::member(&v, "choices"), 0);
            match json::string_at(json::member(choice, "message"), "content") {
                Some(s) => Ok(s),
                None => Err("no content in response".to_string()),
            }
        },
    }
}

/// What is said of an HTTP error: the status and the start of the body, at
/// most 300 bytes of it.
pub fn http_error(code: u16, body: &str) -> (r: String)
    ensures
        r@ == "HTTP "@ + decimal(code as nat) + ": "@ + body@.take(fit(body@, 300)),
{
    let v = text::chars_of(body);
    let (k, _) = text::fit_chars(&v, 300);
    let start = text::text_between(&v, 0, k);
    assert(start@ =~= body@.take(k as int));
    let mut r = "HTTP ".to_string();
    let shown = text::dec(code as u64);
    r.append(&shown);
    r.append(": ");
    r.append(&start);
    r
}

/// The address of an endpoint's resource: the base without its final slashes.
pub fn endpoint_url(base: &str, path: &str) -> (r: String)
    ensures
        r@ == text::without_tail_run(base@, '/') + path@,
{
    let mut r = text::trim_end_run(base, '/');
    r.append(path);
    r
}

// ---------------------------------------------------------------------------
// Which endpoint serves a model
// ---------------------------------------------------------------------------

/// The ids among the first `n` models of a list.
pub open spec fn ids_in(list: serde_json::Value, n: int) -> Seq<Seq<char>>
    decreases n,
{
    if n <= 0 {
        Seq::empty()
    } else {
        match str_member(json_item(list, (n - 1) as nat), "id"@) {
            Some(id) => ids_in(list, n - 1).push(id),
            None => ids_in(list, n - 1),
        }
    }
}

/// The model ids that an endpoint says it serves; none where the answer cannot
/// be read.
pub open spec fn served_in(body: Seq<char>) -> Seq<Seq<char>> {
    match json_value(body) {
        Ok(v) => {
            let list = json_member(v, "data"@);
            match json_len(list) {
                Some(n) => ids_in(list, n as int),
                None => Seq::empty(),
            }
        },
        Err(_) => Seq::empty(),
    }
}

/// Model ids in an endpoint's answer.
pub fn served_ids(body: &str) -> (r: Vec<String>)
    ensures
        texts(r@) == served_in(body@),
{
    let mut r: Vec<String> = Vec::new();
    assert(texts(r@) =~= Seq::<Seq<char>>::empty());
    let v = match json::parse_json(body) {
        Ok(v) => v,
        Err(_) => {
            return r;
        },
    };
    let list = json::member(&v, "data");
    let n = match json::array_len(list) {
        Some(n) => n,
        None => {
            return r;
        },
    };
    let mut i: usize = 0;
    while i < n
        invariant
            i <= n,
            texts(r@) == ids_in(*list, i as int),
        decreases n - i,
    {
        if let Some(id) = json::string_at(json::item(list, i), "id") {
            proof {
                text::lemma_texts_push(r@, id);
            }
            r.push(id);
        }
        i = i + 1;
    }
    r
}

/// The settings of every known endpoint: the default, then the alternates in
/// the order of their names.
pub open spec fn all_models(cfg: Config) -> Seq<ModelV> {
    seq![cfg.model@] + cfg.models@.map_values(|p: (Seq<char>, ModelCfg)| p.1@)
}

/// Whether one of the first `i` models has the same address.
pub open spec fn asked_before(models: Seq<ModelV>, i: int) -> bool {
    exists|k: int| 0 <= k < i && (#[trigger] models[k]).base_url == models[i].base_url
}

/// The models of the first `n` that stand for an address not met before.
pub open spec fn distinct_endpoints(models: Seq<ModelV>, n: int) -> Seq<ModelV>
    decreases n,
{
    if n <= 0 {
        Seq::empty()
    } else if asked_before(models, n - 1) {
        distinct_endpoints(models, n - 1)
    } else {
        distinct_endpoints(models, n - 1).push(models[n - 1])
    }
}

/// The endpoints to ask, each address once.
pub open spec fn endpoints_of(cfg: Config) -> Seq<ModelV> {
    distinct_endpoints(all_models(cfg), all_models(cfg).len() as int)
}

/// What a list of models says.
pub open spec fn model_views(v: Seq<ModelCfg>) -> Seq<ModelV> {
    v.map_values(|m: ModelCfg| m@)
}

/// The endpoints to ask what they serve, in order.
pub fn endpoints(cfg: &Config) -> (r: Vec<ModelCfg>)
    ensures
        model_views(r@) == endpoints_of(*cfg),
{
    let ghost all = all_models(*cfg);
    let n: usize = cfg.models.items.len();
    let first = cfg.model.copy();
    let ghost first_v = first@;
    let mut r: Vec<ModelCfg> = vec![first];
    proof {
        assert(all.len() == n + 1);
        assert(all[0] == first_v);
        assert(distinct_endpoints(all, 0) =~= Seq::<ModelV>::empty());
        assert(!asked_before(all, 0));
        assert(distinct_endpoints(all, 1) =~= seq![first_v]);
        assert(model_views(r@) =~= seq![first_v]);
    }
    let mut i: usize = 0;
    while i < n
        invariant
            i <= n,
            n == cfg.models.items@.len(),
            all == all_models(*cfg),
            all.len() == n + 1,
            model_views(r@) == distinct_endpoints(all, i + 1),
        decreases n - i,
    {
        let m = &cfg.models.items[i].1;
        assert(all[i + 1] == m@) by {
            assert(cfg.models@[i as int] == (cfg.models.items@[i as int].0@, *m));
        }
        let mut met = text::same(&cfg.model.base_url, &m.base_url);
        assert(all[0] == cfg.model@);
        let mut k: usize = 0;
        while k < i
            invariant
                k <= i < n,
                n == cfg.models.items@.len(),
                all == all_models(*cfg),
                all.len() == n + 1,
                all[i + 1] == m@,
                met == exists|q: int|
                    0 <= q < k + 1 && (#[trigger] all[q]).base_url == all[i + 1].base_url,
            decreases i - k,
        {
            assert(all[k + 1] == cfg.models.items@[k as int].1@) by {
                assert(cfg.models@[k as int] == (
                    cfg.models.items@[k as int].0@,
                    cfg.models.items@[k as int].1,
                ));
            }
            if text::same(&cfg.models.items[k].1.base_url, &m.base_url) {
                assert(all[k + 1].base_url == all[i + 1].base_url);
                met = true;
            }
            k = k + 1;
        }
        assert(met == asked_before(all, i + 1));
        if !met {
            let c = m.copy();
            let ghost r0 = r@;
            r.push(c);
            assert(model_views(r@) =~= model_views(r0).push(c@));
        }
        i = i + 1;
    }
    r
}

/// The first endpoint from `i` on whose answer names the model.
pub open spec fn serving(answers: Seq<Seq<Seq<char>>>, name: Seq<char>, i: int) -> Option<int>
    decreases answers.len() - i,
{
    if 0 <= i < answers.len() {
        if answers[i].contains(name) {
            Some(i)
        } else {
            serving(answers, name, i + 1)
        }
    } else {
        None
    }
}

/// What lists of ids say.
pub open spec fn answers_of(v: Seq<Vec<String>>) -> Seq<Seq<Seq<char>>> {
    v.map_values(|l: Vec<String>| texts(l@))
}

/// Resolves a model by name: a declared alternate wins; otherwise the first
/// endpoint that serves it lends its settings, with the id swapped in.
/// `answers` holds what each of `endpoints(cfg)` says it serves, in order, as
/// far as they were asked.
pub fn resolve_model(cfg: &Config, name: &str, answers: &Vec<Vec<String>>) -> (r: Option<ModelCfg>)
    ensures
        match lookup(cfg.models@, name@) {
            Some(m) => r matches Some(c) && c@ == m@,
            None => match serving(
                answers_of(answers@).take(
                    if answers@.len() < endpoints_of(*cfg).len() {
                        answers@.len() as int
                    } else {
                        endpoints_of(*cfg).len() as int
                    },
                ),
                name@,
                0,
            ) {
                Some(i) => r matches Some(c) && c@ == (ModelV {
                    model: name@,
                    ..endpoints_of(*cfg)[i]
                }),
                None => r is None,
            },
        },
{
    if let Some(m) = cfg.models.get(name) {
        return Some(m.copy());
    }
    let eps = endpoints(cfg);
    let mut i: usize = 0;
    let ghost all = endpoints_of(*cfg);
    assert(all.len() == eps@.len());
    let n: usize = if answers.len() < eps.len() {
        answers.len()
    } else {
        eps.len()
    };
    let ghost part = answers_of(answers@).take(n as int);
    while i < n
        invariant
            i <= n <= eps@.len(),
            n <= answers@.len(),
            part == answers_of(answers@).take(n as int),
            all == endpoints_of(*cfg),
            model_views(eps@) == all,
            lookup(cfg.models@, name@) is None,
            n == (if answers@.len() < all.len() {
                answers@.len() as int
            } else {
                all.len() as int
            }),
            serving(part, name@, 0) == serving(part, name@, i as int),
        decreases n - i,
    {
        assert(part[i as int] == texts(answers@[i as int]@));
        if text::lists(&answers[i], name) {
            let mut m = eps[i].copy();
            assert(all[i as int] == eps@[i as int]@);
            m.model = name.to_owned();
            return Some(m);
        }
        i = i + 1;
    }
    None
}

proof fn lemma_run_from(g: GuardV, s: Seq<char>, c: char, i: int)
    requires
        1 <= i <= s.len(),
        forall|k: int| 0 <= k < s.len() ==> s[k] == c,
        g.last == c,
        g.run == i,
        g.pair_run <= i,
        i < 240,
    ensures
        watched_all(g, s, i) is Some <==> s.len() < 240,
    decreases s.len() - i,
{
    if i < s.len() && i + 1 < 240 {
        lemma_run_from(watched(g, s[i]), s, c, i + 1);
    }
}

/// Of one character the guard lets 239 pass in a row, and cuts at the next.
pub proof fn a_run_is_cut_at_its_limit(s: Seq<char>, c: char)
    requires
        s.len() > 0,
        c != '\0',
        forall|k: int| 0 <= k < s.len() ==> s[k] == c,
    ensures
        watched_all(fresh_guard(), s, 0) is Some <==> s.len() < 240,
{
    lemma_run_from(watched(fresh_guard(), s[0]), s, c, 1);
}

proof fn lemma_pair_from(g: GuardV, s: Seq<char>, a: char, b: char, i: int)
    requires
        a != b,
        2 <= i <= s.len(),
        forall|k: int| 0 <= k < s.len() ==> s[k] == (if k % 2 == 0 { a } else { b }),
        g.last == s[i - 1],
        g.before == s[i - 2],
        g.run == 1,
        g.pair_run == i - 1,
        i <= 480,
    ensures
        watched_all(g, s, i) is Some <==> s.len() <= 480,
    decreases s.len() - i,
{
    if i < s.len() && i + 1 <= 480 {
        lemma_pair_from(watched(g, s[i]), s, a, b, i + 1);
    }
}

/// Of two characters in turn the guard lets 480 pass, and cuts at the next.
pub proof fn a_pair_is_cut_at_its_limit(s: Seq<char>, a: char, b: char)
    requires
        s.len() > 1,
        a != b,
        a != '\0',
        b != '\0',
        forall|k: int| 0 <= k < s.len() ==> s[k] == (if k % 2 == 0 { a } else { b }),
    ensures
        watched_all(fresh_guard(), s, 0) is Some <==> s.len() <= 480,
{
    let g1 = watched(fresh_guard(), s[0]);
    let g2 = watched(g1, s[1]);
    assert(watched_all(fresh_guard(), s, 0) == watched_all(g1, s, 1));
    assert(watched_all(g1, s, 1) == watched_all(g2, s, 2));
    lemma_pair_from(g2, s, a, b, 2);
}

proof fn lemma_varied_from(g: GuardV, s: Seq<char>, i: int)
    requires
        0 <= i <= s.len(),
        i < s.len() ==> s[i] != g.last && s[i] != g.before,
        i + 1 < s.len() ==> s[i + 1] != g.last,
        forall|j: int, k: int|
            i <= j < s.len() && i <= k < s.len() && j < k <= j + 2 ==> #[trigger] s[j]
                != #[trigger] s[k],
    ensures
        watched_all(g, s, i) is Some,
    decreases s.len() - i,
{
    if i < s.len() {
        lemma_varied_from(watched(g, s[i]), s, i + 1);
    }
}

/// Text in which no character comes again within the next two is never cut, as
/// long as no scan for phrases is due: the guard stops repetition only.
pub proof fn varied_text_is_accepted(g: GuardV, s: Seq<char>)
    requires
        s.len() > 0 ==> s[0] != g.last && s[0] != g.before,
        s.len() > 1 ==> s[1] != g.last,
        forall|j: int, k: int|
            0 <= j < s.len() && 0 <= k < s.len() && j < k <= j + 2 ==> #[trigger] s[j]
                != #[trigger] s[k],
        g.since_scan + encode_utf8(s).len() < 48,
    ensures
        guarded(g, s) is Some,
{
    lemma_varied_from(g, s, 0);
}

/// A phrase of 20 to 640 bytes with some variety counts as a loop when it stands
/// three times in a row at the end, whatever came before.
pub proof fn a_phrase_loops_the_third_time(x: Seq<u8>, b: Seq<u8>)
    requires
        20 <= b.len() <= 640,
        b.to_set().len() >= 5,
    ensures
        is_phrase_loop(x + b + b + b),
{
    let t = x + b + b + b;
    let n = t.len() as int;
    let p = b.len() as int;
    assert(t.subrange(n - p, n) =~= b);
    assert(t.subrange(n - 2 * p, n - p) =~= b);
    assert(t.subrange(n - 3 * p, n - 2 * p) =~= b);
    assert(ends_in_loop(t, p));
}

/// An end shorter than 60 bytes, or with fewer than five different bytes, is no
/// loop.
pub proof fn plain_ends_are_no_loop(tail: Seq<u8>)
    requires
        tail.len() < 60 || tail.to_set().len() < 5,
    ensures
        !is_phrase_loop(tail),
{
    assert forall|p: int| !ends_in_loop(tail, p) by {
        if ends_in_loop(tail, p) {
            let n = tail.len() as int;
            let block = tail.subrange(n - p, n);
            vstd::seq_lib::seq_to_set_is_finite(tail);
            vstd::seq_lib::seq_to_set_is_finite(block);
            assert forall|c: u8| block.to_set().contains(c) implies tail.to_set().contains(c) by {
                let k = choose|k: int| 0 <= k < block.len() && block[k] == c;
                assert(tail[n - p + k] == c);
            }
            vstd::set_lib::lemma_len_subset(block.to_set(), tail.to_set());
        }
    }
}

/// A phrase that comes three times in a row is cut at the first scan after it,
/// however the stream was split into pieces, and a scan is due every 48 bytes.
pub proof fn a_loop_is_cut_at_the_scan(g: GuardV, delta: Seq<char>, x: Seq<u8>, b: Seq<u8>)
    requires
        20 <= b.len() <= 640,
        b.to_set().len() >= 5,
        g.tail + encode_utf8(delta) == x + b + b + b,
        g.since_scan + encode_utf8(delta).len() >= 48,
    ensures
        guarded(g, delta) is None,
{
    let all = x + b + b + b;
    let kept = last_bytes(all, TAIL_MAX as int);
    let y = if all.len() > 1920 {
        x.skip(all.len() - 1920)
    } else {
        x
    };
    assert(kept =~= y + b + b + b);
    a_phrase_loops_the_third_time(y, b);
}

/// What the guard keeps of the stream is its end: all of it up to 1920 bytes, the
/// last 1920 after that.
pub proof fn the_end_of_the_stream_is_kept(g: GuardV, delta: Seq<char>)
    ensures
        guarded(g, delta) is Some ==> {
            let all = g.tail + encode_utf8(delta);
            let kept = guarded(g, delta)->0.tail;
            &&& all.len() <= 1920 ==> kept == all
            &&& all.len() > 1920 ==> kept.len() == 1920 && all.skip(all.len() - 1920) == kept
        },
{
}

/// Text is handed on as it came and counted by its bytes; an empty piece is not
/// handed on. The last usage and the last finish reason that came stay.
pub proof fn text_is_handed_on(st: StreamV, c: ChunkV)
    requires
        c.delta is Some ==> guarded(st.guard, c.delta->0) is Some,
    ensures
        ({
            let (after, flow) = received(st, c);
            &&& c.delta is Some && c.delta->0.len() > 0 ==> flow == FlowV::Deliver(c.delta->0)
            &&& c.delta is Some && c.delta->0.len() > 0 && st.out + byte_len(c.delta->0)
                <= usize::MAX ==> after.out == st.out + byte_len(c.delta->0)
            &&& c.delta is None || c.delta->0.len() == 0 ==> flow is Continue && after.out == st.out
                && after.guard == st.guard
            &&& c.usage is Some ==> after.usage == c.usage->0
            &&& c.usage is None ==> after.usage == st.usage
            &&& c.finish is Some ==> after.finish == c.finish
            &&& c.finish is None ==> after.finish == st.finish
            &&& after.cut == st.cut
        }),
{
}

/// What a line of the event stream does: `data: [DONE]` ends it, a line without
/// `data: ` or without JSON is passed over, and JSON is taken in as a chunk.
pub proof fn lines_of_the_stream(st: StreamV, line: Seq<char>, data: Seq<char>)
    ensures
        received_line(st, "data: "@ + "[DONE]"@) == (st, FlowV::Stop),
        !(line.len() >= 6 && line.take(6) == seq!['d', 'a', 't', 'a', ':', ' ']) ==> received_line(
            st,
            line,
        ) == (st, FlowV::Continue),
        trimmed(data) != "[DONE]"@ && json_value(data) is Err ==> received_line(
            st,
            "data: "@ + data,
        ) == (st, FlowV::Continue),
        trimmed(data) != "[DONE]"@ && json_value(data) is Ok ==> received_line(
            st,
            "data: "@ + data,
        ) == received(st, chunk_in(json_value(data)->Ok_0)),
{
    reveal_strlit("data: ");
    reveal_strlit("[DONE]");
    let mark = seq!['d', 'a', 't', 'a', ':', ' '];
    assert("data: "@ =~= mark);
    assert(("data: "@ + "[DONE]"@).skip(6) =~= "[DONE]"@);
    assert(("data: "@ + "[DONE]"@).take(6) =~= mark);
    assert(("data: "@ + data).skip(6) =~= data);
    assert(("data: "@ + data).take(6) =~= mark);
    lemma_trimmed_done();
}

proof fn lemma_trimmed_done()
    ensures
        trimmed("[DONE]"@) == "[DONE]"@,
{
    reveal_strlit("[DONE]");
    let none = Seq::<char>::empty();
    text::trimming_takes_the_space_off(none, "[DONE]"@, none);
    assert(none + "[DONE]"@ + none =~= "[DONE]"@);
}

/// Where a chunk says what: the text, the finish reason and the usage, whose
/// counts are zero where they are not given.
pub proof fn chunks_are_read_by_name(v: serde_json::Value)
    ensures
        ({
            let first = json_item(json_member(v, "choices"@), 0);
            let u = json_member(v, "usage"@);
            let c = chunk_in(v);
            &&& c.delta == str_member(json_member(first, "delta"@), "content"@)
            &&& c.finish == str_member(first, "finish_reason"@)
            &&& content_in(v) == str_member(json_member(first, "message"@), "content"@)
            &&& c.usage is Some <==> json_is_object(u)
            &&& c.usage is Some ==> {
                let w = c.usage->0;
                &&& u64_member(u, "prompt_tokens"@) is Some ==> w.prompt == u64_member(
                    u,
                    "prompt_tokens"@,
                )->0
                &&& u64_member(u, "prompt_tokens"@) is None ==> w.prompt == 0
                &&& u64_member(u, "completion_tokens"@) is Some ==> w.completion == u64_member(
                    u,
                    "completion_tokens"@,
                )->0
                &&& u64_member(u, "completion_tokens"@) is None ==> w.completion == 0
                &&& w.cached == u64_member(
                    json_member(u, "prompt_tokens_details"@),
                    "cached_tokens"@,
                )
            }
        }),
{
}

/// The ids that an endpoint serves are those of its models, and each of them.
pub proof fn every_served_model_is_listed(list: serde_json::Value, n: int, id: Seq<char>)
    requires
        n >= 0,
    ensures
        ids_in(list, n).contains(id) <==> exists|i: int|
            0 <= i < n && #[trigger] str_member(json_item(list, i as nat), "id"@) == Some(id),
        ids_in(list, n).len() <= n,
    decreases n,
{
    if n > 0 {
        every_served_model_is_listed(list, n - 1, id);
        let before = ids_in(list, n - 1);
        let last = str_member(json_item(list, (n - 1) as nat), "id"@);
        if last is Some {
            let all = before.push(last->0);
            assert(all[before.len() as int] == last->0);
            if before.contains(id) {
                let k = choose|k: int| 0 <= k < before.len() && before[k] == id;
                assert(all[k] == id);
            }
            if all.contains(id) {
                let k = choose|k: int| 0 <= k < all.len() && all[k] == id;
                if k < before.len() {
                    assert(before[k] == id);
                } else {
                    assert(str_member(json_item(list, (n - 1) as nat), "id"@) == Some(id));
                }
            }
        }
        if ids_in(list, n - 1).contains(id) {
            let i = choose|i: int|
                0 <= i < n - 1 && #[trigger] str_member(json_item(list, i as nat), "id"@) == Some(
                    id,
                );
            assert(str_member(json_item(list, i as nat), "id"@) == Some(id));
        }
        if exists|i: int|
            0 <= i < n && #[trigger] str_member(json_item(list, i as nat), "id"@) == Some(id) {
            let i = choose|i: int|
                0 <= i < n && #[trigger] str_member(json_item(list, i as nat), "id"@) == Some(id);
            if i < n - 1 {
                assert(str_member(json_item(list, i as nat), "id"@) == Some(id));
                assert(before.contains(id));
            }
        }
    }
}

/// Every address is asked, and none twice; the default model's comes first.
pub proof fn every_address_is_asked_once(models: Seq<ModelV>, n: int)
    requires
        0 <= n <= models.len(),
    ensures
        ({
            let asked = distinct_endpoints(models, n);
            &&& asked.len() <= n
            &&& n > 0 ==> asked.len() > 0 && asked[0] == models[0]
            &&& forall|i: int, j: int|
                0 <= i < j < asked.len() ==> (#[trigger] asked[i]).base_url != (
                #[trigger] asked[j]).base_url
            &&& forall|i: int|
                0 <= i < n ==> exists|j: int|
                    0 <= j < asked.len() && (#[trigger] asked[j]).base_url == (
                    #[trigger] models[i]).base_url
            &&& forall|j: int|
                0 <= j < asked.len() ==> exists|i: int|
                    0 <= i < n && #[trigger] models[i] == #[trigger] asked[j]
        }),
    decreases n,
{
    if n > 0 {
        every_address_is_asked_once(models, n - 1);
        let before = distinct_endpoints(models, n - 1);
        let asked = distinct_endpoints(models, n);
        let last = models[n - 1];
        if !asked_before(models, n - 1) {
            assert(asked[before.len() as int] == last);
            assert forall|i: int, j: int| 0 <= i < j < asked.len() implies (#[trigger] asked[i]).base_url
                != (#[trigger] asked[j]).base_url by {
                assert(before[i] == asked[i]);
                if j == before.len() {
                    let k = choose|k: int| 0 <= k < n - 1 && models[k] == before[i];
                    assert(models[k].base_url == asked[i].base_url);
                } else {
                    assert(before[j] == asked[j]);
                }
            }
        }
        assert forall|i: int| 0 <= i < n implies exists|j: int|
            0 <= j < asked.len() && (#[trigger] asked[j]).base_url == (
            #[trigger] models[i]).base_url by {
            if i < n - 1 {
                let j = choose|j: int|
                    0 <= j < before.len() && before[j].base_url == models[i].base_url;
                assert(asked[j] == before[j]);
            } else if asked_before(models, n - 1) {
                let k = choose|k: int|
                    0 <= k < n - 1 && (#[trigger] models[k]).base_url == models[n - 1].base_url;
                let j = choose|j: int|
                    0 <= j < before.len() && before[j].base_url == models[k].base_url;
                assert(asked[j].base_url == models[i].base_url);
            } else {
                assert(asked[before.len() as int].base_url == models[i].base_url);
            }
        }
        assert forall|j: int| 0 <= j < asked.len() implies exists|i: int|
            0 <= i < n && #[trigger] models[i] == #[trigger] asked[j] by {
            if j < before.len() {
                assert(asked[j] == before[j]);
                let i = choose|i: int| 0 <= i < n - 1 && models[i] == before[j];
                assert(models[i] == asked[j]);
            } else {
                assert(models[n - 1] == asked[j]);
            }
        }
        if n > 1 {
            assert(asked[0] == before[0]);
        }
    }
}

/// The default model is the first to be asked, then the alternates in their order.
pub proof fn the_default_is_asked_first(cfg: Config, i: int)
    requires
        0 <= i < cfg.models@.len(),
    ensures
        all_models(cfg)[0] == cfg.model@,
        all_models(cfg)[i + 1] == cfg.models@[i].1@,
        all_models(cfg).len() == cfg.models@.len() + 1,
{
}

/// The endpoint that serves a model is the first whose answer names it; there is
/// none exactly where no answer does.
pub proof fn the_first_that_serves_is_taken(answers: Seq<Seq<Seq<char>>>, name: Seq<char>, i: int)
    requires
        0 <= i <= answers.len(),
    ensures
        match serving(answers, name, i) {
            Some(k) => {
                &&& i <= k < answers.len()
                &&& answers[k].contains(name)
                &&& forall|j: int| i <= j < k ==> !(#[trigger] answers[j]).contains(name)
            },
            None => forall|j: int|
                i <= j < answers.len() ==> !(#[trigger] answers[j]).contains(name),
        },
    decreases answers.len() - i,
{
    if i < answers.len() && !answers[i].contains(name) {
        the_first_that_serves_is_taken(answers, name, i + 1);
    }
}

/// What an endpoint says it serves are the ids in its list; an answer that cannot be
/// read, or holds no list, serves nothing.
pub proof fn answers_list_what_is_served(body: Seq<char>, v: serde_json::Value, n: usize, id: Seq<char>)
    requires
        json_value(body) == Ok::<serde_json::Value, Seq<char>>(v),
        json_len(json_member(v, "data"@)) == Some(n),
    ensures
        served_in(body).contains(id) <==> exists|i: int|
            0 <= i < n && #[trigger] str_member(
                json_item(json_member(v, "data"@), i as nat),
                "id"@,
            ) == Some(id),
{
    every_served_model_is_listed(json_member(v, "data"@), n as int, id);
}

/// The endpoints that are asked are those of the default model and of every alternate,
/// each address once.
pub proof fn every_known_endpoint_is_asked(cfg: Config, i: int)
    requires
        0 <= i < cfg.models@.len(),
    ensures
        endpoints_of(cfg).len() > 0,
        endpoints_of(cfg)[0] == cfg.model@,
        exists|j: int|
            0 <= j < endpoints_of(cfg).len() && (#[trigger] endpoints_of(cfg)[j]).base_url
                == cfg.models@[i].1@.base_url,
{
    let all = all_models(cfg);
    every_address_is_asked_once(all, all.len() as int);
    the_default_is_asked_first(cfg, i);
    assert(all[i + 1].base_url == cfg.models@[i].1@.base_url);
}

} // verus!
