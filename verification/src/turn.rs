//! One turn's dispatch: what each command asks for, and how its result lands.
//! Commands come here both while the model is still generating and from the
//! deferred tail after the stream ends, with identical semantics.

use crate::agent;
use crate::agent::action_text;
use crate::agent::allows;
use crate::agent::capped;
use crate::agent::emitted;
use crate::agent::first_lines_of;
use crate::agent::noted;
use crate::agent::recorded;
use crate::agent::verb_of;
use crate::agent::Ev;
use crate::agent::EvV;
use crate::agent::Log;
use crate::agent::LogV;
use crate::config;
use crate::config::Config;
use crate::config::CtxCfg;
use crate::config::OVERRIDABLE_VERBS;
use crate::dsl::Cmd;
use crate::dsl::CmdV;
use crate::ledger;
use crate::ledger::hash_of;
use crate::ledger::pointer_to;
use crate::ledger::Kind;
use crate::plan::compact_text;
use crate::plan::is_status;
use crate::plan::step_at;
use crate::plan::step_ids;
use crate::plan::with_status;
use crate::plan::Plan;
use crate::plan::PlanV;
use crate::table::lookup;
use crate::text;
use crate::text::begins;
use crate::text::byte_len;
use crate::text::decimal;
use crate::text::head;
use crate::text::held_sum;
use crate::text::lowered;
use crate::text::joined;
use crate::text::lemma_pairs_push;
use crate::text::opt_text;
use crate::text::pairs;
use crate::text::parsed_upto;
use crate::text::pieces_of;
use crate::text::replaced;
use crate::text::stripped;
use crate::text::tail;
use crate::text::texts;
use crate::text::trimmed;
use crate::text::without_runs;
use crate::tools::clip;
use crate::tools::clipped;
use crate::tools::prune;
use crate::tools::pruned;
use crate::tools::Image;
use crate::tools::ImageV;
use std::collections::HashMap;
use vstd::prelude::*;

verus! {

broadcast use vstd::std_specs::hash::group_hash_axioms;

// ---------------------------------------------------------------------------
// Telling commands apart
// ---------------------------------------------------------------------------

/// A text with its length before it.
pub open spec fn field(s: Seq<char>) -> Seq<char> {
    decimal(s.len()) + seq![':'] + s
}

/// A text that may be missing.
pub open spec fn opt_field(o: Option<Seq<char>>) -> Seq<char> {
    match o {
        Some(s) => seq!['+'] + field(s),
        None => seq!['-'],
    }
}

/// A number, ended.
pub open spec fn number(n: nat) -> Seq<char> {
    decimal(n) + seq![':']
}

/// A text that stands for a command and for no other.
pub open spec fn fingerprint(c: CmdV) -> Seq<char> {
    match c {
        CmdV::Read { target, range } => seq!['R'] + field(target) + (match range {
            Some((a, b)) => seq!['+'] + number(a as nat) + number(b as nat),
            None => seq!['-'],
        }),
        CmdV::Edit { target, a, b, body } => seq!['E'] + field(target) + number(a as nat) + number(
            b as nat,
        ) + field(body),
        CmdV::Insert { target, after, body } => seq!['I'] + field(target) + number(after as nat)
            + field(body),
        CmdV::New { path, body } => seq!['N'] + field(path) + field(body),
        CmdV::Grep { pat, target } => seq!['G'] + field(pat) + opt_field(target),
        CmdV::Exec { line } => seq!['X'] + field(line),
        CmdV::Agent { profile, task } => seq!['A'] + field(profile) + field(task),
        CmdV::Done { msg } => seq!['D'] + field(msg),
        CmdV::View { target } => seq!['V'] + field(target),
        CmdV::Say { text } => seq!['S'] + field(text),
        CmdV::Outline { target } => seq!['O'] + field(target),
        CmdV::Replace { target, old, new } => seq!['r'] + field(target) + field(old) + field(new),
        CmdV::PlanStep { id, status } => seq!['P'] + field(id) + field(status),
        CmdV::Think { why } => seq!['B'] + field(why),
        CmdV::Custom { verb, args } => seq!['c', verb] + field(args),
    }
}

fn push_field(out: &mut String, s: &str)
    ensures
        final(out)@ == old(out)@ + field(s@),
{
    let n = text::chars_of(s).len();
    let shown = text::dec(n as u64);
    out.append(&shown);
    out.push(':');
    out.append(s);
    assert(out@ =~= old(out)@ + field(s@));
}

fn push_number(out: &mut String, n: usize)
    ensures
        final(out)@ == old(out)@ + number(n as nat),
{
    let shown = text::dec(n as u64);
    out.append(&shown);
    out.push(':');
    assert(out@ =~= old(out)@ + number(n as nat));
}

fn tagged(c: char) -> (r: String)
    ensures
        r@ == seq![c],
{
    let mut r = String::new();
    r.push(c);
    assert(r@ =~= seq![c]);
    r
}

fn fingerprint_of(cmd: &Cmd) -> (r: String)
    ensures
        r@ == fingerprint(cmd@),
{
    match cmd {
        Cmd::Read { target, range } => {
            let mut r = tagged('R');
            push_field(&mut r, target);
            match range {
                Some((a, b)) => {
                    r.push('+');
                    push_number(&mut r, *a);
                    push_number(&mut r, *b);
                    assert(r@ =~= seq!['R'] + field(target@) + (seq!['+'] + number(*a as nat)
                        + number(*b as nat)));
                },
                None => {
                    r.push('-');
                    assert(r@ =~= seq!['R'] + field(target@) + seq!['-']);
                },
            }
            r
        },
        Cmd::Edit { target, a, b, body } => {
            let mut r = tagged('E');
            push_field(&mut r, target);
            push_number(&mut r, *a);
            push_number(&mut r, *b);
            push_field(&mut r, body);
            r
        },
        Cmd::Insert { target, after, body } => {
            let mut r = tagged('I');
            push_field(&mut r, target);
            push_number(&mut r, *after);
            push_field(&mut r, body);
            r
        },
        Cmd::New { path, body } => {
            let mut r = tagged('N');
            push_field(&mut r, path);
            push_field(&mut r, body);
            r
        },
        Cmd::Grep { pat, target } => {
            let mut r = tagged('G');
            push_field(&mut r, pat);
            match target {
                Some(t) => {
                    r.push('+');
                    push_field(&mut r, t);
                    assert(r@ =~= seq!['G'] + field(pat@) + (seq!['+'] + field(t@)));
                },
                None => {
                    r.push('-');
                    assert(r@ =~= seq!['G'] + field(pat@) + seq!['-']);
                },
            }
            r
        },
        Cmd::Exec { line } => {
            let mut r = tagged('X');
            push_field(&mut r, line);
            r
        },
        Cmd::Agent { profile, task } => {
            let mut r = tagged('A');
            push_field(&mut r, profile);
            push_field(&mut r, task);
            r
        },
        Cmd::Done { msg } => {
            let mut r = tagged('D');
            push_field(&mut r, msg);
            r
        },
        Cmd::View { target } => {
            let mut r = tagged('V');
            push_field(&mut r, target);
            r
        },
        Cmd::Say { text: said } => {
            let mut r = tagged('S');
            push_field(&mut r, said);
            r
        },
        Cmd::Outline { target } => {
            let mut r = tagged('O');
            push_field(&mut r, target);
            r
        },
        Cmd::Replace { target, old: before, new: after } => {
            let mut r = tagged('r');
            push_field(&mut r, target);
            push_field(&mut r, before);
            push_field(&mut r, after);
            r
        },
        Cmd::PlanStep { id, status } => {
            let mut r = tagged('P');
            push_field(&mut r, id);
            push_field(&mut r, status);
            r
        },
        Cmd::Think { why } => {
            let mut r = tagged('B');
            push_field(&mut r, why);
            r
        },
        Cmd::Custom { verb, args } => {
            let mut r = tagged('c');
            r.push(*verb);
            assert(r@ =~= seq!['c', *verb]);
            push_field(&mut r, args);
            r
        },
    }
}

/// The key under which a command's repetitions are counted.
pub open spec fn key_of(c: CmdV) -> u64 {
    hash_of(fingerprint(c))
}

/// The key of a command.
pub fn command_key(cmd: &Cmd) -> (k: u64)
    ensures
        k == key_of(cmd@),
{
    ledger::fnv(&fingerprint_of(cmd))
}

proof fn lemma_number_prefix(m: nat, n: nat, x: Seq<char>, y: Seq<char>)
    requires
        decimal(m) + seq![':'] + x == decimal(n) + seq![':'] + y,
    ensures
        m == n,
        x == y,
{
    let a = decimal(m);
    let b = decimal(n);
    let s = a + seq![':'] + x;
    let t = b + seq![':'] + y;
    text::lemma_decimal(m);
    text::lemma_decimal(n);
    assert(s[a.len() as int] == ':');
    assert(t[b.len() as int] == ':');
    if a.len() < b.len() {
        assert(t[a.len() as int] == b[a.len() as int]);
        assert(text::is_digit(b[a.len() as int]));
    } else if b.len() < a.len() {
        assert(s[b.len() as int] == a[b.len() as int]);
        assert(text::is_digit(a[b.len() as int]));
    }
    assert(a =~= s.take(a.len() as int));
    assert(b =~= t.take(b.len() as int));
    text::decimal_reads_back(m);
    text::decimal_reads_back(n);
    assert(x =~= s.skip((a.len() + 1) as int));
    assert(y =~= t.skip((b.len() + 1) as int));
}

proof fn lemma_field_prefix(a: Seq<char>, b: Seq<char>, x: Seq<char>, y: Seq<char>)
    requires
        field(a) + x == field(b) + y,
    ensures
        a == b,
        x == y,
{
    assert(field(a) + x =~= decimal(a.len()) + seq![':'] + (a + x));
    assert(field(b) + y =~= decimal(b.len()) + seq![':'] + (b + y));
    lemma_number_prefix(a.len(), b.len(), a + x, b + y);
    assert(a =~= (a + x).take(a.len() as int));
    assert(b =~= (b + y).take(b.len() as int));
    assert(x =~= (a + x).skip(a.len() as int));
    assert(y =~= (b + y).skip(b.len() as int));
}

proof fn lemma_tail_fields(x: Seq<char>)
    ensures
        x + Seq::<char>::empty() == x,
{
    assert(x + Seq::<char>::empty() =~= x);
}

/// The letter that a fingerprint starts with.
spec fn tag_of(c: CmdV) -> char {
    match c {
        CmdV::Replace { .. } => 'r',
        CmdV::Custom { .. } => 'c',
        _ => verb_of(c),
    }
}

proof fn lemma_tag(c: CmdV)
    ensures
        fingerprint(c).len() > 0,
        fingerprint(c)[0] == tag_of(c),
{
}

proof fn lemma_read_apart(a: CmdV, b: CmdV)
    requires
        a is Read,
        b is Read,
        fingerprint(a) == fingerprint(b),
    ensures
        a == b,
{
    let s = fingerprint(a);
    let t = fingerprint(b);
    let e = Seq::<char>::empty();
    if let (CmdV::Read { target: x, range: q }, CmdV::Read { target: y, range: r }) = (a, b) {
        let m = s.skip((1 + field(x).len()) as int);
        let n = t.skip((1 + field(y).len()) as int);
        assert(s.skip(1) =~= field(x) + m);
        assert(t.skip(1) =~= field(y) + n);
        lemma_field_prefix(x, y, m, n);
        assert(m[0] == n[0]);
        match (q, r) {
            (Some((c, d)), Some((f, g))) => {
                assert(m.skip(1) =~= decimal(c as nat) + seq![':'] + number(d as nat));
                assert(n.skip(1) =~= decimal(f as nat) + seq![':'] + number(g as nat));
                lemma_number_prefix(c as nat, f as nat, number(d as nat), number(g as nat));
                assert(number(d as nat) =~= decimal(d as nat) + seq![':'] + e);
                assert(number(g as nat) =~= decimal(g as nat) + seq![':'] + e);
                lemma_number_prefix(d as nat, g as nat, e, e);
            },
            _ => {},
        }
    }
}

proof fn lemma_ranges_apart(
    c: nat,
    d: nat,
    u: Seq<char>,
    f: nat,
    g: nat,
    w: Seq<char>,
)
    requires
        number(c) + number(d) + field(u) == number(f) + number(g) + field(w),
    ensures
        c == f,
        d == g,
        u == w,
{
    let e = Seq::<char>::empty();
    let m = number(d) + field(u);
    let n = number(g) + field(w);
    assert(number(c) + number(d) + field(u) =~= decimal(c) + seq![':'] + m);
    assert(number(f) + number(g) + field(w) =~= decimal(f) + seq![':'] + n);
    lemma_number_prefix(c, f, m, n);
    lemma_number_prefix(d, g, field(u), field(w));
    lemma_tail_fields(field(u));
    lemma_tail_fields(field(w));
    lemma_field_prefix(u, w, e, e);
}

proof fn lemma_edit_apart(a: CmdV, b: CmdV)
    requires
        a is Edit,
        b is Edit,
        fingerprint(a) == fingerprint(b),
    ensures
        a == b,
{
    let s = fingerprint(a);
    let t = fingerprint(b);
    if let (
        CmdV::Edit { target: x, a: c, b: d, body: u },
        CmdV::Edit { target: y, a: f, b: g, body: w },
    ) = (a, b) {
        let m = number(c as nat) + number(d as nat) + field(u);
        let n = number(f as nat) + number(g as nat) + field(w);
        assert(s.skip(1) =~= field(x) + m);
        assert(t.skip(1) =~= field(y) + n);
        lemma_field_prefix(x, y, m, n);
        lemma_ranges_apart(c as nat, d as nat, u, f as nat, g as nat, w);
    }
}

proof fn lemma_insert_apart(a: CmdV, b: CmdV)
    requires
        a is Insert,
        b is Insert,
        fingerprint(a) == fingerprint(b),
    ensures
        a == b,
{
    let s = fingerprint(a);
    let t = fingerprint(b);
    let e = Seq::<char>::empty();
    if let (
        CmdV::Insert { target: x, after: c, body: u },
        CmdV::Insert { target: y, after: f, body: w },
    ) = (a, b) {
        let m = number(c as nat) + field(u);
        let n = number(f as nat) + field(w);
        assert(s.skip(1) =~= field(x) + m);
        assert(t.skip(1) =~= field(y) + n);
        lemma_field_prefix(x, y, m, n);
        lemma_number_prefix(c as nat, f as nat, field(u), field(w));
        lemma_tail_fields(field(u));
        lemma_tail_fields(field(w));
        lemma_field_prefix(u, w, e, e);
    }
}

proof fn lemma_grep_apart(a: CmdV, b: CmdV)
    requires
        a is Grep,
        b is Grep,
        fingerprint(a) == fingerprint(b),
    ensures
        a == b,
{
    let s = fingerprint(a);
    let t = fingerprint(b);
    let e = Seq::<char>::empty();
    if let (CmdV::Grep { pat: x, target: q }, CmdV::Grep { pat: y, target: r }) = (a, b) {
        let m = opt_field(q);
        let n = opt_field(r);
        assert(s.skip(1) =~= field(x) + m);
        assert(t.skip(1) =~= field(y) + n);
        lemma_field_prefix(x, y, m, n);
        assert(m[0] == n[0]);
        match (q, r) {
            (Some(u), Some(w)) => {
                assert(m.skip(1) =~= field(u) + e);
                assert(n.skip(1) =~= field(w) + e);
                lemma_field_prefix(u, w, e, e);
            },
            _ => {},
        }
    }
}

proof fn lemma_replace_apart(a: CmdV, b: CmdV)
    requires
        a is Replace,
        b is Replace,
        fingerprint(a) == fingerprint(b),
    ensures
        a == b,
{
    let s = fingerprint(a);
    let t = fingerprint(b);
    let e = Seq::<char>::empty();
    if let (
        CmdV::Replace { target: x, old: u, new: p },
        CmdV::Replace { target: y, old: w, new: q },
    ) = (a, b) {
        let m = field(u) + field(p);
        let n = field(w) + field(q);
        assert(s.skip(1) =~= field(x) + m);
        assert(t.skip(1) =~= field(y) + n);
        lemma_field_prefix(x, y, m, n);
        lemma_field_prefix(u, w, field(p), field(q));
        lemma_tail_fields(field(p));
        lemma_tail_fields(field(q));
        lemma_field_prefix(p, q, e, e);
    }
}

proof fn lemma_custom_apart(a: CmdV, b: CmdV)
    requires
        a is Custom,
        b is Custom,
        fingerprint(a) == fingerprint(b),
    ensures
        a == b,
{
    let s = fingerprint(a);
    let t = fingerprint(b);
    let e = Seq::<char>::empty();
    if let (CmdV::Custom { verb: p, args: x }, CmdV::Custom { verb: q, args: y }) = (a, b) {
        assert(s[1] == p);
        assert(t[1] == q);
        assert(s.skip(2) =~= field(x) + e);
        assert(t.skip(2) =~= field(y) + e);
        lemma_field_prefix(x, y, e, e);
    }
}

proof fn lemma_same_kind_apart(a: CmdV, b: CmdV)
    requires
        !(a is Custom) && !(b is Custom),
        verb_of(a) == verb_of(b),
        !(a is Read || a is Edit || a is Insert || a is Grep || a is Replace),
        fingerprint(a) == fingerprint(b),
    ensures
        a == b,
{
    let s = fingerprint(a);
    let t = fingerprint(b);
    match a {
        CmdV::New { path, body } => lemma_two_fields(path, body, b->New_path, b->New_body, s, t),
        CmdV::Exec { line } => lemma_one_field(line, b->Exec_line, s, t),
        CmdV::Agent { profile, task } => lemma_two_fields(profile, task, b->profile, b->task, s, t),
        CmdV::Done { msg } => lemma_one_field(msg, b->msg, s, t),
        CmdV::View { target } => lemma_one_field(target, b->View_target, s, t),
        CmdV::Say { text } => lemma_one_field(text, b->text, s, t),
        CmdV::Outline { target } => lemma_one_field(target, b->Outline_target, s, t),
        CmdV::PlanStep { id, status } => lemma_two_fields(id, status, b->id, b->status, s, t),
        CmdV::Think { why } => lemma_one_field(why, b->why, s, t),
        _ => {},
    }
}

/// Two commands with the same fingerprint are the same command.
pub proof fn fingerprints_tell_commands_apart(a: CmdV, b: CmdV)
    requires
        fingerprint(a) == fingerprint(b),
    ensures
        a == b,
{
    lemma_tag(a);
    lemma_tag(b);
    if a is Read {
        assert(b is Read);
        lemma_read_apart(a, b);
    } else if a is Edit {
        assert(b is Edit);
        lemma_edit_apart(a, b);
    } else if a is Insert {
        assert(b is Insert);
        lemma_insert_apart(a, b);
    } else if a is Grep {
        assert(b is Grep);
        lemma_grep_apart(a, b);
    } else if a is Replace {
        assert(b is Replace);
        lemma_replace_apart(a, b);
    } else if a is Custom {
        assert(b is Custom);
        lemma_custom_apart(a, b);
    } else {
        lemma_same_kind_apart(a, b);
    }
}

proof fn lemma_one_field(x: Seq<char>, y: Seq<char>, s: Seq<char>, t: Seq<char>)
    requires
        s == t,
        s.len() > 0,
        s == seq![s[0]] + field(x),
        t == seq![t[0]] + field(y),
    ensures
        x == y,
{
    let e = Seq::<char>::empty();
    assert(s.skip(1) =~= field(x) + e);
    assert(t.skip(1) =~= field(y) + e);
    lemma_field_prefix(x, y, e, e);
}

proof fn lemma_two_fields(
    x: Seq<char>,
    u: Seq<char>,
    y: Seq<char>,
    w: Seq<char>,
    s: Seq<char>,
    t: Seq<char>,
)
    requires
        s == t,
        s.len() > 0,
        s == seq![s[0]] + field(x) + field(u),
        t == seq![t[0]] + field(y) + field(w),
    ensures
        x == y,
        u == w,
{
    let e = Seq::<char>::empty();
    assert(s.skip(1) =~= field(x) + field(u));
    assert(t.skip(1) =~= field(y) + field(w));
    lemma_field_prefix(x, y, field(u), field(w));
    lemma_tail_fields(field(u));
    lemma_tail_fields(field(w));
    lemma_field_prefix(u, w, e, e);
}

// ---------------------------------------------------------------------------
// The desk
// ---------------------------------------------------------------------------

/// How a tool's result is watched.
#[derive(Clone, Copy, PartialEq, Eq, Structural)]
pub enum Mode {
    /// A tool that replaces a native verb: not watched.
    Override,
    /// A polling tool: repeats identical results by design.
    Poll,
    /// Everything else: repetitions are counted under the key.
    Watched { key: u64, is_edit: bool },
}

/// What a command asks to be done outside.
pub enum Todo {
    Nothing,
    /// Run a tool; its result comes back through `landed`.
    Tool { cmd: Cmd, mode: Mode },
    /// Load an image; it comes back through `viewed`.
    View { target: String },
    /// Start a subagent.
    Spawn { profile: String, task: String },
}

#[verifier::ext_equal]
pub enum TodoV {
    Nothing,
    Tool { cmd: CmdV, mode: Mode },
    View { target: Seq<char> },
    Spawn { profile: Seq<char>, task: Seq<char> },
}

impl View for Todo {
    type V = TodoV;

    open spec fn view(&self) -> TodoV {
        match *self {
            Todo::Nothing => TodoV::Nothing,
            Todo::Tool { cmd, mode } => TodoV::Tool { cmd: cmd@, mode },
            Todo::View { target } => TodoV::View { target: target@ },
            Todo::Spawn { profile, task } => TodoV::Spawn { profile: profile@, task: task@ },
        }
    }
}

/// What dispatch works on: the log, what outlives a turn (running subagents,
/// queued images, the loop breaker), and what the turn has done so far.
pub struct Desk {
    pub log: Log,
    pub turn: u32,
    /// The verbs that the profile may use; everything without a profile.
    pub allowed: Option<String>,
    /// The profile and the task of each subagent that is still out.
    pub pending: Vec<(String, String)>,
    /// Images (mime, base64) for the next request.
    pub images: Vec<(String, String)>,
    /// Per command: how many times in a row it gave the same result, and the
    /// hash of that result.
    pub repeats: HashMap<u64, (u32, u64)>,
    pub refusals: u32,
    /// The loop breaker fired this turn.
    pub loop_warned: bool,
    /// The reason of a request for deliberation this turn.
    pub think_req: Option<String>,
    pub done: Option<String>,
    pub edited: bool,
    pub executed: usize,
    pub tool_us: u128,
    /// What was said this turn, for catching a D that merely repeats it.
    pub says: Vec<String>,
}

/// The state of a desk.
#[verifier::ext_equal]
pub struct DeskV {
    pub log: LogV,
    pub turn: u32,
    pub allowed: Option<Seq<char>>,
    pub pending: Seq<(Seq<char>, Seq<char>)>,
    pub images: Seq<(Seq<char>, Seq<char>)>,
    pub repeats: Map<u64, (u32, u64)>,
    pub refusals: u32,
    pub loop_warned: bool,
    pub think_req: Option<Seq<char>>,
    pub done: Option<Seq<char>>,
    pub edited: bool,
    pub executed: usize,
    pub tool_us: u128,
    pub says: Seq<Seq<char>>,
}

impl View for Desk {
    type V = DeskV;

    open spec fn view(&self) -> DeskV {
        DeskV {
            log: self.log@,
            turn: self.turn,
            allowed: opt_text(self.allowed),
            pending: pairs(self.pending@),
            images: pairs(self.images@),
            repeats: self.repeats@,
            refusals: self.refusals,
            loop_warned: self.loop_warned,
            think_req: opt_text(self.think_req),
            done: opt_text(self.done),
            edited: self.edited,
            executed: self.executed,
            tool_us: self.tool_us,
            says: texts(self.says@),
        }
    }
}

/// The desk after an advisory line.
pub open spec fn desk_noted(d: DeskV, text: Seq<char>) -> DeskV {
    DeskV { log: noted(d.log, d.turn, text), ..d }
}

/// The desk after an entry.
pub open spec fn desk_recorded(d: DeskV, kind: Kind, text: Seq<char>) -> DeskV {
    DeskV { log: recorded(d.log, kind, d.turn, text, None), ..d }
}

/// The desk after an event.
pub open spec fn desk_emitted(d: DeskV, ev: EvV) -> DeskV {
    DeskV { log: emitted(d.log, ev), ..d }
}

/// A task as it is compared: without quotes around it, in lower case.
pub open spec fn norm_task(s: Seq<char>) -> Seq<char> {
    lowered(trimmed(without_runs(s, '"')))
}

/// Whether the same subagent is already out on the same task.
pub open spec fn already_out(
    pending: Seq<(Seq<char>, Seq<char>)>,
    profile: Seq<char>,
    task: Seq<char>,
) -> bool {
    exists|i: int|
        0 <= i < pending.len() && (#[trigger] pending[i]).0 == profile && norm_task(pending[i].1)
            == norm_task(task)
}

/// Whether a tool replaces the native verb `v`.
pub open spec fn overrides(cfg: Config, v: char) -> bool {
    OVERRIDABLE_VERBS@.contains(v) && (lookup(cfg.tool@, seq![v]) matches Some(t)
        && t.override_native)
}

/// Whether a command polls.
pub open spec fn polls(cfg: Config, c: CmdV) -> bool {
    c matches CmdV::Custom { verb, .. } && (lookup(cfg.tool@, seq![verb]) matches Some(t) && t.poll)
}

/// Whether a command changes a file.
pub open spec fn is_edit(c: CmdV) -> bool {
    c is Edit || c is Insert || c is New
}

/// What a refused command is told: something else every time.
pub open spec fn refusal_hint(n: u32) -> Seq<char> {
    if n % 4 == 0 {
        "read the file again with R before editing"@
    } else if n % 4 == 1 {
        "rewrite the ENTIRE function in one E covering its full line range"@
    } else if n % 4 == 2 {
        "run the failing check with X and act on its exact message"@
    } else {
        "explain your plan to the user with S, then try a different command"@
    }
}

pub open spec fn refusal_note(n: u32) -> Seq<char> {
    "(refusal #"@ + decimal(n as nat)
        + ": that command keeps repeating with the same result — "@ + refusal_hint(n) + ")"@
}

/// The desk once a tool has been announced.
pub open spec fn announced(d: DeskV, c: CmdV) -> DeskV {
    desk_emitted(d, EvV::Action(d.log.depth, clipped(action_text(c), 200)))
}

/// What a subagent's start asks for and records.
pub open spec fn spawned(d: DeskV, cfg: Config, profile: Seq<char>, task: Seq<char>) -> (DeskV, TodoV) {
    if d.log.depth >= 2 {
        (desk_recorded(d, Kind::Result, "subagent depth limit reached"@), TodoV::Nothing)
    } else if lookup(cfg.profile@, profile) is None {
        (desk_recorded(d, Kind::Result, "no profile '"@ + profile + "'"@), TodoV::Nothing)
    } else if already_out(d.pending, profile, task) {
        (
            desk_noted(
                d,
                "("@ + profile
                    + " is ALREADY RUNNING on that task — its brief arrives in a later turn; do not spawn it again)"@,
            ),
            TodoV::Nothing,
        )
    } else {
        let act = "A "@ + profile + " "@ + task;
        let d1 = desk_emitted(
            desk_recorded(d, Kind::Action, act),
            EvV::Action(d.log.depth, act),
        );
        let d2 = desk_noted(
            d1,
            "("@ + profile + " started in background — its ["@ + profile
                + "] brief will arrive in a later turn)"@,
        );
        (
            DeskV { pending: d2.pending.push((profile, task)), ..d2 },
            TodoV::Spawn { profile, task },
        )
    }
}

/// What any other command asks for: polling tools run unwatched, a command
/// that gave the same result five times is refused, everything else runs.
pub open spec fn worked(d: DeskV, cfg: Config, c: CmdV) -> (DeskV, TodoV) {
    let key = key_of(c);
    if polls(cfg, c) {
        (announced(d, c), TodoV::Tool { cmd: c, mode: Mode::Poll })
    } else if d.repeats.contains_key(key) && d.repeats[key].0 >= 5 {
        let n = held_sum(d.refusals as int, 1, u32::MAX as int) as u32;
        (
            desk_noted(DeskV { refusals: n, loop_warned: true, ..d }, refusal_note(n)),
            TodoV::Nothing,
        )
    } else {
        (
            announced(d, c),
            TodoV::Tool { cmd: c, mode: Mode::Watched { key, is_edit: is_edit(c) } },
        )
    }
}

/// What a command asks for, and what is recorded of it. A verb that the
/// profile may not use is refused, except D. A tool that overrides a native
/// verb gets the raw argument text.
pub open spec fn dispatched(d: DeskV, cfg: Config, c: CmdV) -> (DeskV, TodoV) {
    let d = DeskV { executed: held_sum(d.executed as int, 1, usize::MAX as int) as usize, ..d };
    let v = verb_of(c);
    if !allows(d.allowed, v) && v != 'D' {
        (
            desk_recorded(
                d,
                Kind::Result,
                "verb "@ + seq![v] + " not allowed in this profile"@,
            ),
            TodoV::Nothing,
        )
    } else if overrides(cfg, v) {
        let c2 = CmdV::Custom { verb: v, args: trimmed(tail(action_text(c), ' ')) };
        (announced(d, c2), TodoV::Tool { cmd: c2, mode: Mode::Override })
    } else {
        match c {
            CmdV::Done { msg } => (DeskV { done: Some(msg), ..d }, TodoV::Nothing),
            CmdV::Say { text } => {
                let d1 = if d.log.depth == 0 {
                    desk_emitted(d, EvV::Say(text))
                } else {
                    d
                };
                let d2 = desk_recorded(d1, Kind::Result, "(you told the user: "@ + text + ")"@);
                (DeskV { says: d2.says.push(text), ..d2 }, TodoV::Nothing)
            },
            CmdV::View { target } => {
                let act = "V "@ + target;
                (
                    desk_recorded(
                        desk_emitted(d, EvV::Action(d.log.depth, act)),
                        Kind::Action,
                        act,
                    ),
                    TodoV::View { target },
                )
            },
            CmdV::Agent { profile, task } => spawned(d, cfg, profile, task),
            _ => worked(d, cfg, c),
        }
    }
}

/// What is stored of a result: capped, and in append mode a long result that
/// repeats an earlier one becomes a pointer.
pub open spec fn stored_text(log: LogV, ctx: CtxCfg, result: Seq<char>) -> Seq<char> {
    let c = capped(result, ctx.result_cap_chars as int);
    if ctx.mode@ == "append"@ && byte_len(c) > 160 {
        match pointer_to(log.entries, c) {
            Some(p) => p,
            None => c,
        }
    } else {
        c
    }
}

/// How often a command has now given the result with this hash in a row.
pub open spec fn counted(repeats: Map<u64, (u32, u64)>, key: u64, hash: u64) -> (u32, u64) {
    let old_count = if repeats.contains_key(key) {
        repeats[key]
    } else {
        (0u32, 0u64)
    };
    if old_count.1 == hash {
        (held_sum(old_count.0 as int, 1, u32::MAX as int) as u32, hash)
    } else {
        (1u32, hash)
    }
}

pub open spec fn repeat_note(n: u32) -> Seq<char> {
    "(warning "@ + decimal(n as nat)
        + "x: that command gives the identical result every time — running it again will not help; change approach)"@
}

/// The desk once a tool's result has landed.
pub open spec fn landed_desk(
    d: DeskV,
    ctx: CtxCfg,
    c: CmdV,
    mode: Mode,
    result: Seq<char>,
    elapsed_us: u128,
) -> DeskV {
    let stored = stored_text(d.log, ctx, result);
    let file = if c is Read {
        file_in(result)
    } else {
        None
    };
    let log = recorded(
        recorded(
            emitted(
                d.log,
                EvV::Result(d.log.depth, clipped(first_lines_of(stored, 3), 400)),
            ),
            Kind::Action,
            d.turn,
            action_text(c),
            None,
        ),
        Kind::Result,
        d.turn,
        stored,
        file,
    );
    let d1 = DeskV { log, ..d };
    let us = held_sum(d.tool_us as int, elapsed_us as int, u128::MAX as int) as u128;
    match mode {
        Mode::Override => d1,
        Mode::Poll => DeskV { tool_us: us, ..d1 },
        Mode::Watched { key, is_edit } => {
            let now = counted(d.repeats, key, hash_of(stored));
            let d2 = DeskV {
                tool_us: us,
                edited: d.edited || (is_edit && !begins(stored, "err"@)),
                repeats: d.repeats.insert(key, now),
                ..d1
            };
            if now.0 >= 3 {
                desk_noted(DeskV { loop_warned: true, ..d2 }, repeat_note(now.0))
            } else {
                d2
            }
        },
    }
}

/// The desk once an image has been loaded, or could not be.
pub open spec fn viewed_desk(d: DeskV, image: Result<ImageV, Seq<char>>) -> DeskV {
    match image {
        Ok(i) => desk_noted(
            DeskV { images: d.images.push((i.mime, i.b64)), ..d },
            "(image #"@ + decimal(i.id as nat) + " attached — you will SEE it in the next turn; "@
                + decimal((i.bytes / 1024) as nat) + "KB)"@,
        ),
        Err(e) => desk_noted(d, "err: "@ + e),
    }
}

/// A tool's answer as it is recorded.
pub open spec fn flat_text(r: Result<Seq<char>, Seq<char>>) -> Seq<char> {
    match r {
        Ok(t) => t,
        Err(e) => "err: "@ + e,
    }
}

pub fn flat(r: Result<String, String>) -> (s: String)
    ensures
        s@ == flat_text(crate::tools::answer(r)),
{
    match r {
        Ok(t) => t,
        Err(e) => {
            let mut s = "err: ".to_string();
            s.append(&e);
            s
        },
    }
}

/// The file that a read result is of: the number after its leading `#`.
pub open spec fn file_in(result: Seq<char>) -> Option<u32> {
    match stripped(result, "#"@) {
        Some(rest) => match parsed_upto(head(rest, ' '), u32::MAX as nat) {
            Some(n) => Some(n as u32),
            None => None,
        },
        None => None,
    }
}

pub fn file_of(result: &str) -> (r: Option<u32>)
    ensures
        r == file_in(result@),
{
    match text::strip_prefix(result, "#") {
        Some(rest) => {
            let (id, _) = text::split_head(&rest, ' ');
            text::parse_u32(&id)
        },
        None => None,
    }
}

fn one(c: char) -> (r: String)
    ensures
        r@ == seq![c],
{
    tagged(c)
}

fn normal(s: &str) -> (r: String)
    ensures
        r@ == norm_task(s@),
{
    text::lower_ascii(&text::trim(&text::trim_runs(s, '"')))
}

impl Desk {
    pub open spec fn wf(self) -> bool {
        self.log.wf()
    }

    pub fn note(&mut self, text: String)
        requires
            old(self).wf(),
        ensures
            final(self).wf(),
            final(self)@ == desk_noted(old(self)@, text@),
    {
        self.log.note(self.turn, text);
    }

    fn record(&mut self, kind: Kind, text: String)
        requires
            old(self).wf(),
        ensures
            final(self).wf(),
            final(self)@ == desk_recorded(old(self)@, kind, text@),
    {
        self.log.push(kind, self.turn, text, None);
    }

    fn emit(&mut self, ev: Ev)
        requires
            old(self).wf(),
        ensures
            final(self).wf(),
            final(self)@ == desk_emitted(old(self)@, ev@),
    {
        self.log.emit(ev);
    }

    fn announce(&mut self, cmd: &Cmd)
        requires
            old(self).wf(),
        ensures
            final(self).wf(),
            final(self)@ == announced(old(self)@, cmd@),
    {
        let shown = clip(&agent::action_of(cmd), 200);
        let depth = self.log.depth;
        self.emit(Ev::Action(depth, shown));
    }

    fn is_out(&self, profile: &str, task: &str) -> (r: bool)
        ensures
            r == already_out(self@.pending, profile@, task@),
    {
        let want = normal(task);
        let mut i: usize = 0;
        while i < self.pending.len()
            invariant
                i <= self.pending@.len(),
                want@ == norm_task(task@),
                forall|k: int|
                    0 <= k < i ==> !((#[trigger] self@.pending[k]).0 == profile@ && norm_task(
                        self@.pending[k].1,
                    ) == norm_task(task@)),
            decreases self.pending@.len() - i,
        {
            assert(self@.pending[i as int] == (
                self.pending@[i as int].0@,
                self.pending@[i as int].1@,
            ));
            if text::same(&self.pending[i].0, profile) && text::same(
                &normal(&self.pending[i].1),
                &want,
            ) {
                return true;
            }
            i = i + 1;
        }
        false
    }

    fn spawn(&mut self, cfg: &Config, profile: String, task: String) -> (r: Todo)
        requires
            old(self).wf(),
        ensures
            final(self).wf(),
            (final(self)@, r@) == spawned(old(self)@, *cfg, profile@, task@),
    {
        if self.log.depth >= 2 {
            self.record(Kind::Result, "subagent depth limit reached".to_string());
            return Todo::Nothing;
        }
        if !cfg.profile.contains_key(&profile) {
            let mut t = "no profile '".to_string();
            t.append(&profile);
            t.append("'");
            self.record(Kind::Result, t);
            return Todo::Nothing;
        }
        if self.is_out(&profile, &task) {
            let mut t = "(".to_string();
            t.append(&profile);
            t.append(
                " is ALREADY RUNNING on that task — its brief arrives in a later turn; do not spawn it again)",
            );
            self.note(t);
            return Todo::Nothing;
        }
        let mut act = "A ".to_string();
        act.append(&profile);
        act.append(" ");
        act.append(&task);
        self.record(Kind::Action, act.clone());
        let depth = self.log.depth;
        self.emit(Ev::Action(depth, act));
        let mut ack = "(".to_string();
        ack.append(&profile);
        ack.append(" started in background — its [");
        ack.append(&profile);
        ack.append("] brief will arrive in a later turn)");
        self.note(ack);
        let row = (profile.clone(), task.clone());
        proof {
            lemma_pairs_push(self.pending@, row);
        }
        self.pending.push(row);
        Todo::Spawn { profile, task }
    }

    fn work(&mut self, cfg: &Config, cmd: Cmd) -> (r: Todo)
        requires
            old(self).wf(),
        ensures
            final(self).wf(),
            (final(self)@, r@) == worked(old(self)@, *cfg, cmd@),
    {
        let polling = match &cmd {
            Cmd::Custom { verb, .. } => match cfg.tool.get(&one(*verb)) {
                Some(t) => t.poll,
                None => false,
            },
            _ => false,
        };
        if polling {
            self.announce(&cmd);
            return Todo::Tool { cmd, mode: Mode::Poll };
        }
        let key = command_key(&cmd);
        let stuck = match self.repeats.get(&key) {
            Some(p) => p.0 >= 5,
            None => false,
        };
        if stuck {
            self.refusals = text::add_u32(self.refusals, 1);
            self.loop_warned = true;
            let n = self.refusals;
            let hint = if n % 4 == 0 {
                "read the file again with R before editing"
            } else if n % 4 == 1 {
                "rewrite the ENTIRE function in one E covering its full line range"
            } else if n % 4 == 2 {
                "run the failing check with X and act on its exact message"
            } else {
                "explain your plan to the user with S, then try a different command"
            };
            let mut t = "(refusal #".to_string();
            let shown = text::dec(n as u64);
            t.append(&shown);
            t.append(": that command keeps repeating with the same result — ");
            t.append(hint);
            t.append(")");
            self.note(t);
            return Todo::Nothing;
        }
        self.announce(&cmd);
        let edits = matches!(&cmd, Cmd::Edit { .. } | Cmd::Insert { .. } | Cmd::New { .. });
        Todo::Tool { cmd, mode: Mode::Watched { key, is_edit: edits } }
    }

    /// Takes in one command: records what it says, and returns what has to be
    /// done outside for it.
    pub fn dispatch(&mut self, cfg: &Config, cmd: Cmd) -> (r: Todo)
        requires
            old(self).wf(),
        ensures
            final(self).wf(),
            (final(self)@, r@) == dispatched(old(self)@, *cfg, cmd@),
    {
        self.executed = text::add_usize(self.executed, 1);
        let v = agent::verb(&cmd);
        let allowed = match &self.allowed {
            Some(a) => config::has_char(a, v),
            None => true,
        };
        if !allowed && v != 'D' {
            let mut t = "verb ".to_string();
            t.push(v);
            t.append(" not allowed in this profile");
            assert(t@ =~= "verb "@ + seq![v] + " not allowed in this profile"@);
            self.record(Kind::Result, t);
            return Todo::Nothing;
        }
        if config::has_char(OVERRIDABLE_VERBS, v) {
            let replaced = match cfg.tool.get(&one(v)) {
                Some(t) => t.override_native,
                None => false,
            };
            if replaced {
                let (_, args) = text::split_head(&agent::action_of(&cmd), ' ');
                let c2 = Cmd::Custom { verb: v, args: text::trim(&args) };
                self.announce(&c2);
                return Todo::Tool { cmd: c2, mode: Mode::Override };
            }
        }
        match cmd {
            Cmd::Done { msg } => {
                self.done = Some(msg);
                Todo::Nothing
            },
            Cmd::Say { text: said } => {
                if self.log.depth == 0 {
                    self.emit(Ev::Say(said.clone()));
                }
                let mut t = "(you told the user: ".to_string();
                t.append(&said);
                t.append(")");
                self.record(Kind::Result, t);
                proof {
                    text::lemma_texts_push(self.says@, said);
                }
                self.says.push(said);
                Todo::Nothing
            },
            Cmd::View { target } => {
                let mut act = "V ".to_string();
                act.append(&target);
                let depth = self.log.depth;
                self.emit(Ev::Action(depth, act.clone()));
                self.record(Kind::Action, act);
                Todo::View { target }
            },
            Cmd::Agent { profile, task } => self.spawn(cfg, profile, task),
            other => self.work(cfg, other),
        }
    }

    /// Lands the result of a tool: capped, deduplicated, recorded and shown;
    /// the loop breaker counts how often the command gave it.
    pub fn landed(
        &mut self,
        ctx: &CtxCfg,
        cmd: &Cmd,
        mode: Mode,
        result: String,
        elapsed_us: u128,
    )
        requires
            old(self).wf(),
        ensures
            final(self).wf(),
            final(self)@ == landed_desk(
                old(self)@,
                *ctx,
                cmd@,
                mode,
                result@,
                elapsed_us,
            ),
    {
        let action = agent::action_of(cmd);
        let file = match cmd {
            Cmd::Read { .. } => file_of(&result),
            _ => None,
        };
        let capped = agent::cap(result, ctx.result_cap_chars);
        let stored = if text::same(&ctx.mode, "append") && text::bytes_in(&capped) > 160 {
            match self.log.ledger.dup_of(&capped) {
                Some(p) => p,
                None => capped,
            }
        } else {
            capped
        };
        let shown = clip(&agent::first_lines(&stored, 3), 400);
        let depth = self.log.depth;
        self.emit(Ev::Result(depth, shown));
        self.record(Kind::Action, action);
        let failed = text::starts_with(&stored, "err");
        let hash = ledger::fnv(&stored);
        self.log.push(Kind::Result, self.turn, stored, file);
        match mode {
            Mode::Override => {},
            Mode::Poll => {
                self.tool_us = text::add_u128(self.tool_us, elapsed_us);
            },
            Mode::Watched { key, is_edit } => {
                self.tool_us = text::add_u128(self.tool_us, elapsed_us);
                if is_edit && !failed {
                    self.edited = true;
                }
                let was: (u32, u64) = match self.repeats.get(&key) {
                    Some(p) => *p,
                    None => (0, 0),
                };
                let n: u32 = if was.1 == hash {
                    text::add_u32(was.0, 1)
                } else {
                    1
                };
                self.repeats.insert(key, (n, hash));
                if n >= 3 {
                    self.loop_warned = true;
                    let mut t = "(warning ".to_string();
                    let count = text::dec(n as u64);
                    t.append(&count);
                    t.append(
                        "x: that command gives the identical result every time — running it again will not help; change approach)",
                    );
                    self.note(t);
                }
            },
        }
    }

    /// Lands an image, or why there is none.
    pub fn viewed(&mut self, image: Result<Image, String>)
        requires
            old(self).wf(),
        ensures
            final(self).wf(),
            final(self)@ == viewed_desk(
                old(self)@,
                match image {
                    Ok(i) => Ok(i@),
                    Err(e) => Err(e@),
                },
            ),
    {
        match image {
            Ok(i) => {
                let mut t = "(image #".to_string();
                let id = text::dec(i.id as u64);
                t.append(&id);
                t.append(" attached — you will SEE it in the next turn; ");
                let kb = text::dec((i.bytes / 1024) as u64);
                t.append(&kb);
                t.append("KB)");
                let row = (i.mime, i.b64);
                proof {
                    lemma_pairs_push(self.images@, row);
                }
                self.images.push(row);
                self.note(t);
            },
            Err(e) => {
                let mut t = "err: ".to_string();
                t.append(&e);
                self.note(t);
            },
        }
    }

    /// Takes in a request for deliberation and answers it.
    pub fn asked_to_think(&mut self, why: &str) -> (r: String)
        requires
            old(self).wf(),
        ensures
            final(self).wf(),
            final(self)@ == (DeskV {
                think_req: Some(
                    if why@.len() == 0 {
                        "(no reason given)"@
                    } else {
                        why@
                    },
                ),
                ..old(self)@
            }),
            r@ == "ok — noted; deliberation is decided at turn end"@,
    {
        self.think_req = Some(
            if text::empty(why) {
                "(no reason given)".to_string()
            } else {
                why.to_owned()
            },
        );
        "ok — noted; deliberation is decided at turn end".to_string()
    }
}

// ---------------------------------------------------------------------------
// Configured tools
// ---------------------------------------------------------------------------

/// How long a tool may run unless its config says otherwise.
pub const DEFAULT_TOOL_TIMEOUT_MS: u64 = 120_000;

/// A configured tool's command line and what happens to its output.
pub struct ToolCall {
    pub line: String,
    pub timeout_ms: u64,
    /// The pruner chain.
    pub chain: String,
    /// Whether the model distills what the pruners leave.
    pub distills: bool,
}

/// Whether one of the first `n` stages is "distill".
pub open spec fn distills_in(stages: Seq<Seq<char>>, n: int) -> bool
    decreases n,
{
    n > 0 && (trimmed(stages[n - 1]) == "distill"@ || distills_in(stages, n - 1))
}

/// The pruner chain of a tool.
pub open spec fn chain_of(t: config::ToolCfg) -> Seq<char> {
    match t.prune {
        Some(p) => p@,
        None => ""@,
    }
}

fn has_distill(chain: &str) -> (r: bool)
    ensures
        r == distills_in(pieces_of(chain@, '|'), pieces_of(chain@, '|').len() as int),
{
    let stages = text::split(chain, '|');
    let mut i: usize = 0;
    let mut found = false;
    while i < stages.len()
        invariant
            i <= stages@.len(),
            texts(stages@) == pieces_of(chain@, '|'),
            found == distills_in(pieces_of(chain@, '|'), i as int),
        decreases stages@.len() - i,
    {
        assert(texts(stages@)[i as int] == stages@[i as int]@);
        found = text::same(&text::trim(&stages[i]), "distill") || found;
        i = i + 1;
    }
    found
}

/// What runs for a configured verb: its command with the arguments filled in.
pub fn tool_call(cfg: &Config, verb: char, args: &str) -> (r: Result<ToolCall, String>)
    ensures
        match lookup(cfg.tool@, seq![verb]) {
            Some(t) => r matches Ok(c) && c.line@ == replaced(t.cmd@, "{args}"@, args@)
                && c.timeout_ms == (match t.timeout_ms {
                Some(ms) => ms,
                None => DEFAULT_TOOL_TIMEOUT_MS,
            }) && c.chain@ == chain_of(t) && c.distills == distills_in(
                pieces_of(chain_of(t), '|'),
                pieces_of(chain_of(t), '|').len() as int,
            ),
            None => r matches Err(e) && e@ == "err: unknown verb "@ + seq![verb],
        },
{
    match cfg.tool.get(&one(verb)) {
        Some(t) => {
            let chain = match &t.prune {
                Some(p) => p.clone(),
                None => "".to_string(),
            };
            let distills = has_distill(&chain);
            let timeout_ms = match t.timeout_ms {
                Some(ms) => ms,
                None => DEFAULT_TOOL_TIMEOUT_MS,
            };
            Ok(
                ToolCall {
                    line: text::replace(&t.cmd, "{args}", args),
                    timeout_ms,
                    chain,
                    distills,
                },
            )
        },
        None => {
            let mut e = "err: unknown verb ".to_string();
            e.push(verb);
            assert(e@ =~= "err: unknown verb "@ + seq![verb]);
            Err(e)
        },
    }
}

/// What a tool's output comes to: capped, and then pruned by its chain, so that
/// no pruner works on more than the cap.
pub fn tool_output(call: &ToolCall, raw: String, cap: usize) -> (r: String)
    ensures
        r@ == pruned(call.chain@, agent::capped(raw@, cap as int)),
{
    prune(&call.chain, &agent::cap(raw, cap))
}

// ---------------------------------------------------------------------------
// Plan steps
// ---------------------------------------------------------------------------

/// The plan with one step moved, and how that reads.
pub open spec fn moved_step(p: PlanV, i: int, id: Seq<char>, status: Seq<char>) -> (PlanV, Seq<char>) {
    let now = PlanV { steps: with_status(p.steps, i, status), ..p };
    (now, "ok "@ + id + " -> "@ + status + "\n"@ + compact_text(now))
}

/// Moves one step of the plan that was loaded. The harness owns the plan file:
/// the model names a step and a status instead of re-emitting the document.
/// Returns the plan to save and what to say once it is saved, or the error.
pub fn plan_step(
    loaded: Option<Result<Plan, String>>,
    file: &str,
    id: &str,
    status: &str,
) -> (r: Result<(Plan, String), String>)
    ensures
        match loaded {
            None => r matches Err(e) && e@ == "err: no "@ + file@ + " — create it first with N"@,
            Some(Err(why)) => r matches Err(e) && e@ == "err: "@ + file@ + " is unparseable: "@
                + why@,
            Some(Ok(plan)) => match step_at(plan@.steps, id@, 0) {
                None => r matches Err(e) && e@ == "err: "@ + ("no step '"@ + id@
                    + "' — the plan has: "@ + joined(step_ids(plan@.steps), ", "@)),
                Some(i) => if is_status(status@) {
                    r matches Ok((now, said)) && (now@, said@) == moved_step(
                        plan@,
                        i,
                        id@,
                        status@,
                    )
                } else {
                    r matches Err(e) && e@ == "err: "@ + ("bad status '"@ + status@
                        + "' — use todo, doing, done or skip"@)
                },
            },
        },
{
    match loaded {
        None => {
            let mut e = "err: no ".to_string();
            e.append(file);
            e.append(" — create it first with N");
            Err(e)
        },
        Some(Err(why)) => {
            let mut e = "err: ".to_string();
            e.append(file);
            e.append(" is unparseable: ");
            e.append(&why);
            Err(e)
        },
        Some(Ok(plan)) => {
            let mut plan = plan;
            match plan.set_status(id, status) {
                Err(why) => {
                    let mut e = "err: ".to_string();
                    e.append(&why);
                    Err(e)
                },
                Ok(()) => {
                    let mut said = "ok ".to_string();
                    said.append(id);
                    said.append(" -> ");
                    said.append(status);
                    said.append("\n");
                    let view = plan.compact();
                    said.append(&view);
                    Ok((plan, said))
                },
            }
        },
    }
}

// ---------------------------------------------------------------------------
// Laws
// ---------------------------------------------------------------------------

/// A verb that the profile may not use does no work: it asks for nothing, and
/// all that changes is the count and one line in the ledger. D is never
/// refused this way.
pub proof fn forbidden_verbs_do_nothing(d: DeskV, cfg: Config, c: CmdV)
    requires
        !allows(d.allowed, verb_of(c)),
        verb_of(c) != 'D',
    ensures
        dispatched(d, cfg, c).1 == TodoV::Nothing,
        dispatched(d, cfg, c).0 == (DeskV {
            executed: held_sum(d.executed as int, 1, usize::MAX as int) as usize,
            log: dispatched(d, cfg, c).0.log,
            ..d
        }),
        dispatched(d, cfg, c).0.log.entries.len() == d.log.entries.len() + 1,
{
}

/// Whether `b` is `a` with entries added at its end.
pub open spec fn extends(a: LogV, b: LogV) -> bool {
    a.entries.len() <= b.entries.len() && b.entries.take(a.entries.len() as int) == a.entries
}

/// The ledger only grows: no dispatch and no result ever changes or removes an
/// entry.
pub proof fn the_ledger_only_grows(
    d: DeskV,
    cfg: Config,
    ctx: CtxCfg,
    c: CmdV,
    mode: Mode,
    result: Seq<char>,
    elapsed_us: u128,
)
    ensures
        extends(d.log, dispatched(d, cfg, c).0.log),
        extends(d.log, landed_desk(d, ctx, c, mode, result, elapsed_us).log),
{
    let after = dispatched(d, cfg, c).0.log;
    assert(after.entries.take(d.log.entries.len() as int) =~= d.log.entries);
    let land = landed_desk(d, ctx, c, mode, result, elapsed_us).log;
    assert(land.entries.take(d.log.entries.len() as int) =~= d.log.entries);
}

/// A command that gave the same result five times in a row is not run a sixth
/// time, unless it polls: it is refused, with a note that carries the number of
/// the refusal.
pub proof fn stuck_commands_are_refused(d: DeskV, cfg: Config, c: CmdV)
    requires
        d.repeats.contains_key(key_of(c)),
        d.repeats[key_of(c)].0 >= 5,
        !polls(cfg, c),
    ensures
        worked(d, cfg, c).1 == TodoV::Nothing,
        worked(d, cfg, c).0.loop_warned,
        d.refusals < u32::MAX ==> worked(d, cfg, c).0.refusals == d.refusals + 1,
        worked(d, cfg, c).0.repeats == d.repeats,
        worked(d, cfg, c).0.log.entries.len() == d.log.entries.len() + 1,
        worked(d, cfg, c).0.log.entries.last().text == refusal_note(worked(d, cfg, c).0.refusals),
{
}

/// No two refusals read alike: a deterministic sampler can only leave a loop
/// if its input changes.
pub proof fn no_two_refusals_read_alike(a: u32, b: u32)
    requires
        a != b,
    ensures
        refusal_note(a) != refusal_note(b),
{
    let x = decimal(a as nat);
    let y = decimal(b as nat);
    let n = "(refusal #"@.len() as int;
    reveal_strlit(": that command keeps repeating with the same result — ");
    text::lemma_decimal(a as nat);
    text::lemma_decimal(b as nat);
    text::decimal_reads_back(a as nat);
    text::decimal_reads_back(b as nat);
    if refusal_note(a) == refusal_note(b) {
        assert(refusal_note(a)[n + x.len()] == ':');
        assert(refusal_note(b)[n + y.len()] == ':');
        assert forall|i: int| 0 <= i < x.len() implies refusal_note(a)[n + i] == x[i] by {}
        assert forall|i: int| 0 <= i < y.len() implies refusal_note(b)[n + i] == y[i] by {}
        if x.len() < y.len() {
            assert(refusal_note(b)[n + x.len()] == y[x.len() as int]);
        } else if y.len() < x.len() {
            assert(refusal_note(a)[n + y.len()] == x[y.len() as int]);
        } else {
            assert(x =~= y) by {
                assert forall|i: int| 0 <= i < x.len() implies x[i] == y[i] by {
                    assert(refusal_note(a)[n + i] == x[i]);
                    assert(refusal_note(b)[n + i] == y[i]);
                }
            }
        }
    }
}

/// Whether no two subagents that are out have the same profile and task.
pub open spec fn no_twins(pending: Seq<(Seq<char>, Seq<char>)>) -> bool {
    forall|i: int, j: int|
        0 <= i < j < pending.len() ==> !((#[trigger] pending[i]).0 == (#[trigger] pending[j]).0
            && norm_task(pending[i].1) == norm_task(pending[j].1))
}

/// No subagent is started on a task that one of its profile is already out on,
/// none two levels down, and none without a profile.
pub proof fn no_subagent_runs_twice(d: DeskV, cfg: Config, c: CmdV)
    requires
        no_twins(d.pending),
    ensures
        no_twins(dispatched(d, cfg, c).0.pending),
        dispatched(d, cfg, c).1 matches TodoV::Spawn { profile, task } ==> d.log.depth < 2
            && lookup(cfg.profile@, profile) is Some && !already_out(d.pending, profile, task)
            && dispatched(d, cfg, c).0.pending == d.pending.push((profile, task)),
        !(dispatched(d, cfg, c).1 is Spawn) ==> dispatched(d, cfg, c).0.pending == d.pending,
{
}

/// Only the natives of one line can be replaced, and only by a tool that says
/// so; the tool then gets the arguments as they were written.
pub proof fn only_single_line_verbs_are_replaced(d: DeskV, cfg: Config, c: CmdV)
    ensures
        (dispatched(d, cfg, c).1 matches TodoV::Tool { mode, .. } && mode == Mode::Override) ==> (
        OVERRIDABLE_VERBS@.contains(verb_of(c)) && lookup(cfg.tool@, seq![verb_of(c)]) is Some && (
        lookup(cfg.tool@, seq![verb_of(c)])->0).override_native),
        overrides(cfg, verb_of(c)) && allows(d.allowed, verb_of(c)) ==> dispatched(d, cfg, c).1 == (
        TodoV::Tool {
            cmd: CmdV::Custom {
                verb: verb_of(c),
                args: trimmed(tail(action_text(c), ' ')),
            },
            mode: Mode::Override,
        }),
{
}

/// Landing the same result once more adds one to a command's count; another
/// result starts it over.
pub proof fn repetitions_are_counted(
    d: DeskV,
    ctx: CtxCfg,
    c: CmdV,
    key: u64,
    is_edit: bool,
    result: Seq<char>,
    elapsed_us: u128,
)
    requires
        d.repeats.contains_key(key),
        d.repeats[key].0 < u32::MAX,
    ensures
        ({
            let h = hash_of(stored_text(d.log, ctx, result));
            let after = landed_desk(
                d,
                ctx,
                c,
                Mode::Watched { key, is_edit },
                result,
                elapsed_us,
            );
            &&& after.repeats.contains_key(key)
            &&& after.repeats[key] == (if d.repeats[key].1 == h {
                ((d.repeats[key].0 + 1) as u32, h)
            } else {
                (1u32, h)
            })
            &&& after.repeats[key].0 >= 3 ==> after.loop_warned
        }),
{
}

proof fn lemma_no_err(s: Seq<char>, max: int)
    requires
        !begins(s, "err"@),
        max >= 0,
    ensures
        !begins(capped(s, max), "err"@),
{
    reveal_strlit("err");
    reveal_strlit("…(+");
    if byte_len(s) > max {
        let k = text::fit(s, max);
        text::lemma_fit(s, max);
        let c = capped(s, max);
        if begins(c, "err"@) {
            let start = c.subrange(0, 3);
            assert(start[0] == c[0] && start[1] == c[1] && start[2] == c[2]);
            if k >= 3 {
                assert(s.subrange(0, 3) =~= "err"@) by {
                    assert(c[0] == s[0] && c[1] == s[1] && c[2] == s[2]);
                }
            } else {
                assert(c[k] == '…');
            }
        }
    }
}

proof fn lemma_stored_no_err(log: LogV, ctx: CtxCfg, result: Seq<char>)
    requires
        !begins(result, "err"@),
    ensures
        !begins(stored_text(log, ctx, result), "err"@),
{
    let c = capped(result, ctx.result_cap_chars as int);
    lemma_no_err(result, ctx.result_cap_chars as int);
    if let Some(p) = pointer_to(log.entries, c) {
        reveal_strlit("(= identical to the earlier result");
        reveal_strlit("err");
        assert(p[0] == '(');
        if begins(p, "err"@) {
            assert(p.subrange(0, 3)[0] == 'e');
        }
    }
}

/// Replacing lines, inserting lines and creating a file are all edits: once the
/// result of an `E`, an `I` or an `N` has landed, and it is no error, the turn
/// has edited something. Nothing else that is run counts as an edit.
pub proof fn every_edit_is_noticed(
    d: DeskV,
    cfg: Config,
    ctx: CtxCfg,
    c: CmdV,
    result: Seq<char>,
    elapsed_us: u128,
)
    requires
        d.allowed is None,
        !d.repeats.contains_key(key_of(c)) || d.repeats[key_of(c)].0 < 5,
    ensures
        (match c {
            CmdV::Edit { target, a, b, body } => true,
            CmdV::Insert { target, after, body } => true,
            CmdV::New { path, body } => true,
            _ => false,
        }) ==> {
            let (d1, todo) = dispatched(d, cfg, c);
            &&& todo is Tool
            &&& todo->cmd == c
            &&& !begins(result, "err"@) ==> landed_desk(
                d1,
                ctx,
                c,
                todo->mode,
                result,
                elapsed_us,
            ).edited
            &&& begins(result, "err"@) && byte_len(result) <= 160 && byte_len(result)
                <= ctx.result_cap_chars ==> landed_desk(
                d1,
                ctx,
                c,
                todo->mode,
                result,
                elapsed_us,
            ).edited == d.edited
        },
        (c is Read || c is Grep || c is Exec || c is Outline || c is Custom || c is PlanStep
            || c is Think) && dispatched(d, cfg, c).1 is Tool ==> landed_desk(
            dispatched(d, cfg, c).0,
            ctx,
            dispatched(d, cfg, c).1->cmd,
            dispatched(d, cfg, c).1->mode,
            result,
            elapsed_us,
        ).edited == d.edited,
{
    reveal_strlit("RGXOV");
    let v = verb_of(c);
    if c is Edit || c is Insert || c is New {
        assert(!OVERRIDABLE_VERBS@.contains(v));
        let d1 = dispatched(d, cfg, c).0;
        if !begins(result, "err"@) {
            lemma_stored_no_err(d1.log, ctx, result);
        }
    }
}

/// A command that may be used and is not stuck is run as it was given, and what
/// comes back is recorded: an action that names it, and then the result.
pub proof fn what_runs_is_recorded(
    d: DeskV,
    cfg: Config,
    ctx: CtxCfg,
    c: CmdV,
    result: Seq<char>,
    elapsed_us: u128,
)
    requires
        c is Read || c is Edit || c is Insert || c is New || c is Grep || c is Exec || c is Outline
            || c is Custom || c is PlanStep || c is Think || c is Replace,
        d.allowed is Some ==> (d.allowed->0).contains(verb_of(c)),
        !overrides(cfg, verb_of(c)),
        !d.repeats.contains_key(key_of(c)) || d.repeats[key_of(c)].0 < 5,
        byte_len(result) <= 160,
        byte_len(result) <= ctx.result_cap_chars,
    ensures
        ({
            let (d1, todo) = dispatched(d, cfg, c);
            let d2 = landed_desk(d1, ctx, c, todo->mode, result, elapsed_us);
            let n = d.log.entries.len() as int;
            &&& todo is Tool
            &&& todo->cmd == c
            &&& d1.log.entries == d.log.entries
            &&& d2.log.entries.len() >= n + 2
            &&& d2.log.entries.take(n) == d.log.entries
            &&& d2.log.entries[n].kind == Kind::Action
            &&& d2.log.entries[n].text == action_text(c)
            &&& d2.log.entries[n].turn == d.turn
            &&& d2.log.entries[n + 1].kind == Kind::Result
            &&& d2.log.entries[n + 1].text == result
            &&& d2.log.entries[n + 1].turn == d.turn
            &&& !(c is Read) ==> d2.log.entries[n + 1].file is None
            &&& d.executed < usize::MAX ==> d2.executed == d.executed + 1
        }),
{
    let (d1, todo) = dispatched(d, cfg, c);
    let d2 = landed_desk(d1, ctx, c, todo->mode, result, elapsed_us);
    assert(d2.log.entries.take(d.log.entries.len() as int) =~= d.log.entries);
}

/// D ends nothing by itself: it only leaves its message on the desk. What is said
/// is recorded as said; nothing is run for either.
pub proof fn talking_runs_nothing(d: DeskV, cfg: Config, text: Seq<char>)
    requires
        d.allowed is None,
    ensures
        dispatched(d, cfg, CmdV::Done { msg: text }).1 == TodoV::Nothing,
        dispatched(d, cfg, CmdV::Done { msg: text }).0.done == Some(text),
        dispatched(d, cfg, CmdV::Done { msg: text }).0.log == d.log,
        dispatched(d, cfg, CmdV::Say { text }).1 == TodoV::Nothing,
        dispatched(d, cfg, CmdV::Say { text }).0.says == d.says.push(text),
        dispatched(d, cfg, CmdV::Say { text }).0.done == d.done,
        dispatched(d, cfg, CmdV::Say { text }).0.log.entries.len() == d.log.entries.len() + 1,
        dispatched(d, cfg, CmdV::Say { text }).0.log.entries.last().text == "(you told the user: "@
            + text + ")"@,
{
    reveal_strlit("RGXOV");
}

/// Of a result that is too long only its start is kept, and a note; a result
/// that repeats an earlier long one is kept as a pointer in append mode, and as
/// it is otherwise.
pub proof fn long_results_are_capped(log: LogV, ctx: CtxCfg, result: Seq<char>)
    ensures
        byte_len(result) <= ctx.result_cap_chars && ctx.mode@ != "append"@ ==> stored_text(
            log,
            ctx,
            result,
        ) == result,
        byte_len(result) <= ctx.result_cap_chars && byte_len(result) <= 160 ==> stored_text(
            log,
            ctx,
            result,
        ) == result,
        byte_len(result) <= ctx.result_cap_chars && byte_len(result) > 160 && ctx.mode@
            == "append"@ && stored_text(log, ctx, result) != result ==> exists|i: int|
            0 <= i < log.entries.len() && (#[trigger] log.entries[i]).kind == Kind::Result
                && log.entries[i].text == result,
        byte_len(result) > ctx.result_cap_chars && ctx.mode@ != "append"@ ==> ({
            let kept = stored_text(log, ctx, result);
            &&& text::ends(kept, "\n…(result capped)"@)
            &&& exists|k: int| #![trigger result.take(k)]
                0 <= k <= result.len() && byte_len(result.take(k)) <= ctx.result_cap_chars
                    && begins(kept, result.take(k)) && (k < result.len() ==> byte_len(
                    result.take(k + 1),
                ) > ctx.result_cap_chars)
        }),
{
    let max = ctx.result_cap_chars as int;
    let c = capped(result, max);
    if byte_len(result) <= max {
        if pointer_to(log.entries, result) is Some {
            crate::ledger::pointers_point_at_the_text(log.entries, result);
        }
    } else if ctx.mode@ != "append"@ {
        let note = "\n…(result capped)"@;
        assert(c.subrange(c.len() - note.len(), c.len() as int) =~= note);
        let k = text::fit(result, max);
        text::lemma_fit(result, max);
        assert(c.subrange(0, k) =~= result.take(k));
        assert(begins(c, result.take(k)));
    }
}

/// An image that was found is attached by its type and bytes, and noted by its number
/// and size; one that was not attaches nothing, and the reason is noted.
pub proof fn viewed_images_are_attached(d: DeskV, image: Result<ImageV, Seq<char>>)
    ensures
        image is Ok ==> {
            let i = image->Ok_0;
            let after = viewed_desk(d, image);
            &&& after.images == d.images.push((i.mime, i.b64))
            &&& after.log.entries.len() == d.log.entries.len() + 1
            &&& begins(after.log.entries.last().text, "(image #"@ + decimal(i.id as nat))
        },
        image is Err ==> {
            let after = viewed_desk(d, image);
            &&& after.images == d.images
            &&& after.log.entries.len() == d.log.entries.len() + 1
            &&& after.log.entries.last().text == "err: "@ + image->Err_0
        },
{
    if image is Ok {
        let i = image->Ok_0;
        let head = "(image #"@ + decimal(i.id as nat);
        let t = head + " attached — you will SEE it in the next turn; "@ + decimal(
            (i.bytes / 1024) as nat,
        ) + "KB)"@;
        assert(t.subrange(0, head.len() as int) =~= head);
    }
}

/// A tool's output is distilled exactly where one of its stages says so.
pub proof fn distilling_is_asked_for(stages: Seq<Seq<char>>, n: int)
    requires
        0 <= n <= stages.len(),
    ensures
        distills_in(stages, n) <==> exists|i: int|
            0 <= i < n && trimmed(#[trigger] stages[i]) == "distill"@,
    decreases n,
{
    if n > 0 {
        distilling_is_asked_for(stages, n - 1);
        if exists|i: int| 0 <= i < n && trimmed(#[trigger] stages[i]) == "distill"@ {
            let i = choose|i: int| 0 <= i < n && trimmed(#[trigger] stages[i]) == "distill"@;
            if i < n - 1 {
                assert(trimmed(stages[i]) == "distill"@);
            }
        }
        if distills_in(stages, n) && trimmed(stages[n - 1]) != "distill"@ {
            let i = choose|i: int| 0 <= i < n - 1 && trimmed(#[trigger] stages[i]) == "distill"@;
            assert(trimmed(stages[i]) == "distill"@);
        }
    }
}

/// A plan step that is moved has its new status and nothing else changes; the answer
/// says which went where and shows the plan as it is then.
pub proof fn a_moved_step_is_answered(p: PlanV, i: int, id: Seq<char>, status: Seq<char>, k: int)
    requires
        0 <= i < p.steps.len(),
        0 <= k < p.steps.len(),
    ensures
        ({
            let (now, answer) = moved_step(p, i, id, status);
            &&& now.steps.len() == p.steps.len()
            &&& now.steps[i].status == status
            &&& now.steps[i].id == p.steps[i].id
            &&& k != i ==> now.steps[k] == p.steps[k]
            &&& now.goal == p.goal
            &&& begins(answer, "ok "@ + id + " -> "@ + status + "\n"@)
            &&& crate::text::ends(answer, compact_text(now))
        }),
{
    let (now, answer) = moved_step(p, i, id, status);
    let head = "ok "@ + id + " -> "@ + status + "\n"@;
    let view = compact_text(now);
    assert(answer =~= head + view);
    assert(answer.subrange(0, head.len() as int) =~= head);
    assert(answer.subrange(answer.len() - view.len(), answer.len() as int) =~= view);
}

/// An answer is its text, and a refusal is marked as one.
pub proof fn refusals_are_marked(t: Seq<char>)
    ensures
        flat_text(Ok(t)) == t,
        flat_text(Err(t)) == "err: "@ + t,
{
}

/// A command is announced as it reads, whole up to 200 bytes.
pub proof fn commands_are_announced(d: DeskV, c: CmdV)
    requires
        d.log.tag is None,
    ensures
        announced(d, c).log.events.len() == d.log.events.len() + 1,
        byte_len(action_text(c)) <= 200 ==> announced(d, c).log.events.last() == EvV::Action(
            d.log.depth,
            action_text(c),
        ),
        byte_len(action_text(c)) > 200 ==> announced(d, c).log.events.last() == EvV::Action(
            d.log.depth,
            crate::tools::clipped(action_text(c), 200),
        ),
        announced(d, c).log.entries == d.log.entries,
{
}

/// A subagent is out already where one of the same profile has the same task, but for
/// quotes around it, white space at its ends and capitals; with none out it is not.
pub proof fn the_same_task_is_recognised(
    pending: Seq<(Seq<char>, Seq<char>)>,
    profile: Seq<char>,
    task: Seq<char>,
    i: int,
)
    requires
        task.len() > 0,
        !text::is_space(task[0]),
        !text::is_space(task.last()),
        task[0] != '"',
        task.last() != '"',
    ensures
        0 <= i < pending.len() && pending[i] == (profile, task) ==> already_out(
            pending,
            profile,
            task,
        ) && already_out(pending, profile, seq!['"'] + task + seq!['"']) && already_out(
            pending,
            profile,
            task + seq![' '],
        ),
        (forall|k: int| 0 <= k < pending.len() ==> (#[trigger] pending[k]).0 != profile)
            ==> !already_out(pending, profile, task),
        (forall|k: int|
            0 <= k < pending.len() ==> norm_task((#[trigger] pending[k]).1) != norm_task(task))
            ==> !already_out(pending, profile, task),
        norm_task(task) == lowered(task),
{
    let quote = seq!['"'];
    let none = Seq::<char>::empty();
    text::runs_are_dropped_at_the_ends(quote, task, quote, '"');
    text::runs_are_dropped_at_the_ends(none, task, none, '"');
    text::trimming_takes_the_space_off(none, task, none);
    assert(none + task + none =~= task);
    let spaced = task + seq![' '];
    text::runs_are_dropped_at_the_ends(none, spaced, none, '"');
    assert(none + spaced + none =~= spaced);
    text::trimming_takes_the_space_off(none, task, seq![' ']);
    assert(none + task + seq![' '] =~= spaced);
}

/// The hints of refusals go round: four different ones, one after the other.
pub proof fn hints_go_round(n: u32)
    requires
        n <= u32::MAX - 4,
    ensures
        refusal_hint((n + 4) as u32) == refusal_hint(n),
        refusal_hint((n + 1) as u32) != refusal_hint(n),
        refusal_hint((n + 2) as u32) != refusal_hint(n),
        refusal_hint((n + 3) as u32) != refusal_hint(n),
{
    reveal_strlit("read the file again with R before editing");
    reveal_strlit("rewrite the ENTIRE function in one E covering its full line range");
    reveal_strlit("run the failing check with X and act on its exact message");
    reveal_strlit("explain your plan to the user with S, then try a different command");
    assert("read the file again with R before editing"@[2] == 'a');
    assert("rewrite the ENTIRE function in one E covering its full line range"@[2] == 'w');
    assert("run the failing check with X and act on its exact message"@[2] == 'n');
    assert("explain your plan to the user with S, then try a different command"@[2] == 'p');
}

} // verus!
