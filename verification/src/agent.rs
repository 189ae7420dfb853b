//! The words of the agent: its events, its report, how commands and results
//! read, and the system prompt.

use crate::config::Config;
use crate::config::ToolCfg;
use crate::dsl::at_rest;
use crate::dsl::cmds;
use crate::dsl::fresh;
use crate::dsl::is_phrase;
use crate::dsl::is_word;
use crate::dsl::lemma_cmds_push;
use crate::dsl::lexed;
use crate::dsl::lexed_end;
use crate::dsl::Cmd;
use crate::dsl::CmdV;
use crate::dsl::LexV;
use crate::dsl::Lexer;
use crate::ledger::entry_for;
use crate::ledger::EntryV;
use crate::ledger::Kind;
use crate::ledger::Ledger;
use crate::table::keys_in;
use crate::table::lookup;
use crate::text;
use crate::text::begins;
use crate::text::byte_len;
use crate::text::decimal;
use crate::text::first_line;
use crate::text::joined;
use crate::text::lines_of;
use crate::text::opt_text;
use crate::text::replaced;
use crate::text::texts;
use crate::text::trimmed;
use crate::text::trimmed_end;
use crate::text::trimmed_start;
use crate::tools::clip;
use crate::tools::clipped;
use crate::tools::prune;
use crate::tools::pruned;
use vstd::prelude::*;

verus! {

// ---------------------------------------------------------------------------
// Events
// ---------------------------------------------------------------------------

/// Live events for a UI.
pub enum Ev {
    Turn(u32),
    /// Raw model stream chunk (top-level agent only).
    Delta(String),
    Action(u8, String),
    Result(u8, String),
    /// The agent speaking to the user mid-run (S verb).
    Say(String),
    /// End-of-run stats line.
    Report(String),
    Done(String),
    /// Real billed context size (prompt_tokens) of the latest request.
    Ctx(u64),
    /// A named subagent's latest activity line (for a UI's agents pane).
    Sub(String, String),
    /// The named subagent finished.
    SubDone(String),
    /// Current compact plan view (for a UI's plan pane).
    Plan(String),
}

/// What an event says.
#[verifier::ext_equal]
pub enum EvV {
    Turn(u32),
    Delta(Seq<char>),
    Action(u8, Seq<char>),
    Result(u8, Seq<char>),
    Say(Seq<char>),
    Report(Seq<char>),
    Done(Seq<char>),
    Ctx(u64),
    Sub(Seq<char>, Seq<char>),
    SubDone(Seq<char>),
    Plan(Seq<char>),
}

impl View for Ev {
    type V = EvV;

    open spec fn view(&self) -> EvV {
        match *self {
            Ev::Turn(n) => EvV::Turn(n),
            Ev::Delta(t) => EvV::Delta(t@),
            Ev::Action(d, t) => EvV::Action(d, t@),
            Ev::Result(d, t) => EvV::Result(d, t@),
            Ev::Say(t) => EvV::Say(t@),
            Ev::Report(t) => EvV::Report(t@),
            Ev::Done(t) => EvV::Done(t@),
            Ev::Ctx(n) => EvV::Ctx(n),
            Ev::Sub(a, b) => EvV::Sub(a@, b@),
            Ev::SubDone(a) => EvV::SubDone(a@),
            Ev::Plan(t) => EvV::Plan(t@),
        }
    }
}

/// What a sequence of events says.
pub open spec fn evs(v: Seq<Ev>) -> Seq<EvV> {
    v.map_values(|e: Ev| e@)
}

/// How an agent's events reach the UI.
pub struct Ctl {
    /// Set for a subagent: its activity is labeled with this name, so that a
    /// UI can route it to an agents pane instead of the main chat.
    pub tag: Option<String>,
}

/// An event as it is sent: a subagent's activity goes under its name, and its
/// turn counter must not fight the leader's.
pub open spec fn routed(tag: Option<Seq<char>>, ev: EvV) -> Option<EvV> {
    match tag {
        Some(t) => match ev {
            EvV::Action(d, a) => Some(
                if d > 0 {
                    EvV::Sub(t, a)
                } else {
                    ev
                },
            ),
            EvV::Result(d, r) => Some(
                if d > 0 {
                    EvV::Sub(t, r)
                } else {
                    ev
                },
            ),
            EvV::Turn(_) => None,
            _ => Some(ev),
        },
        None => Some(ev),
    }
}

impl Default for Ctl {
    fn default() -> (r: Self)
        ensures
            r.tag is None,
    {
        Ctl { tag: None }
    }
}

impl Ctl {
    /// The event as it is sent, if it is.
    pub fn route(&self, ev: Ev) -> (r: Option<Ev>)
        ensures
            (match r {
                Some(e) => Some(e@),
                None => None,
            }) == routed(opt_text(self.tag), ev@),
    {
        match &self.tag {
            Some(t) => match ev {
                Ev::Action(d, a) => if d > 0 {
                    Some(Ev::Sub(t.clone(), a))
                } else {
                    Some(Ev::Action(d, a))
                },
                Ev::Result(d, x) => if d > 0 {
                    Some(Ev::Sub(t.clone(), x))
                } else {
                    Some(Ev::Result(d, x))
                },
                Ev::Turn(_) => None,
                other => Some(other),
            },
            None => Some(ev),
        }
    }

    /// The control of a subagent. Nested spawns keep the outermost name: the
    /// UI attributes a grandchild's work to the agent the user can see.
    pub fn for_sub(&self, profile: &str) -> (r: Ctl)
        ensures
            opt_text(r.tag) == (if self.tag is Some {
                opt_text(self.tag)
            } else {
                Some(profile@)
            }),
    {
        match &self.tag {
            Some(t) => Ctl { tag: Some(t.clone()) },
            None => Ctl { tag: Some(profile.to_owned()) },
        }
    }
}

// ---------------------------------------------------------------------------
// The log: what is recorded and what is shown
// ---------------------------------------------------------------------------

/// The ledger of a run, and the events that have not been sent yet.
pub struct Log {
    pub ledger: Ledger,
    pub events: Vec<Ev>,
    pub ctl: Ctl,
    pub depth: u8,
}

/// What a log holds.
#[verifier::ext_equal]
pub struct LogV {
    pub entries: Seq<EntryV>,
    pub events: Seq<EvV>,
    pub tag: Option<Seq<char>>,
    pub depth: u8,
}

impl View for Log {
    type V = LogV;

    open spec fn view(&self) -> LogV {
        LogV {
            entries: self.ledger@,
            events: evs(self.events@),
            tag: opt_text(self.ctl.tag),
            depth: self.depth,
        }
    }
}

/// The log with one more event.
pub open spec fn emitted(log: LogV, ev: EvV) -> LogV {
    match routed(log.tag, ev) {
        Some(e) => LogV { events: log.events.push(e), ..log },
        None => log,
    }
}

/// The log with one more entry.
pub open spec fn recorded(log: LogV, kind: Kind, turn: u32, text: Seq<char>, file: Option<u32>) -> LogV {
    LogV { entries: log.entries.push(entry_for(kind, turn, text, file)), ..log }
}

/// The log after an advisory line: shown, and recorded as a result.
pub open spec fn noted(log: LogV, turn: u32, text: Seq<char>) -> LogV {
    recorded(emitted(log, EvV::Result(log.depth, clipped(text, 400))), Kind::Result, turn, text, None)
}

/// The log after several advisory lines.
pub open spec fn noted_all(log: LogV, turn: u32, notes: Seq<Seq<char>>) -> LogV
    decreases notes.len(),
{
    if notes.len() == 0 {
        log
    } else {
        noted(noted_all(log, turn, notes.drop_last()), turn, notes.last())
    }
}

impl Log {
    pub open spec fn wf(self) -> bool {
        self.ledger.wf()
    }

    /// Queues an event.
    pub fn emit(&mut self, ev: Ev)
        requires
            old(self).wf(),
        ensures
            final(self).wf(),
            final(self)@ == emitted(old(self)@, ev@),
    {
        if let Some(e) = self.ctl.route(ev) {
            let ghost events0 = self.events@;
            self.events.push(e);
            assert(evs(self.events@) =~= evs(events0).push(e@));
        }
    }

    /// Records an entry.
    pub fn push(&mut self, kind: Kind, turn: u32, text: String, file: Option<u32>)
        requires
            old(self).wf(),
        ensures
            final(self).wf(),
            final(self)@ == recorded(old(self)@, kind, turn, text@, file),
    {
        self.ledger.push(kind, turn, text, file);
    }

    /// Emit + record an advisory line (loop-breaker notes, spawn acks, errors).
    pub fn note(&mut self, turn: u32, text: String)
        requires
            old(self).wf(),
        ensures
            final(self).wf(),
            final(self)@ == noted(old(self)@, turn, text@),
    {
        let shown = clip(&text, 400);
        self.emit(Ev::Result(self.depth, shown));
        self.push(Kind::Result, turn, text, None);
    }

    /// Several advisory lines, in order.
    pub fn note_all(&mut self, turn: u32, notes: &Vec<String>)
        requires
            old(self).wf(),
        ensures
            final(self).wf(),
            final(self)@ == noted_all(old(self)@, turn, texts(notes@)),
    {
        let ghost log0 = self@;
        let ghost all = texts(notes@);
        let mut i: usize = 0;
        assert(all.take(0) =~= Seq::<Seq<char>>::empty());
        while i < notes.len()
            invariant
                i <= notes@.len(),
                self.wf(),
                all == texts(notes@),
                self@ == noted_all(log0, turn, all.take(i as int)),
            decreases notes@.len() - i,
        {
            proof {
                assert(all.take(i + 1).drop_last() =~= all.take(i as int));
                assert(all.take(i + 1).last() == notes@[i as int]@);
            }
            self.note(turn, notes[i].clone());
            i = i + 1;
        }
        assert(all.take(all.len() as int) =~= all);
    }
}

// ---------------------------------------------------------------------------
// The report
// ---------------------------------------------------------------------------

/// What a run came to.
#[derive(Debug)]
pub struct Report {
    pub final_msg: String,
    pub turns: u32,
    pub wall_ms: u128,
    pub model_ms: u128,
    pub ttft_ms_sum: u128,
    pub tool_ms: u128,
    pub render_us: u128,
    pub sent_tokens: usize,
    pub out_chars: usize,
    pub commands: usize,
    /// Exact provider-reported usage (0 when the provider doesn't send it).
    pub tok_in: u64,
    pub tok_cached: u64,
    /// Whether any response actually carried a number of cached tokens.
    pub cached_reported: bool,
    pub tok_out: u64,
    /// History seals (model compactions) performed during the run.
    pub seals: u32,
}

/// What a report says.
#[verifier::ext_equal]
pub struct ReportV {
    pub final_msg: Seq<char>,
    pub turns: u32,
    pub wall_ms: u128,
    pub model_ms: u128,
    pub ttft_ms_sum: u128,
    pub tool_ms: u128,
    pub render_us: u128,
    pub sent_tokens: usize,
    pub out_chars: usize,
    pub commands: usize,
    pub tok_in: u64,
    pub tok_cached: u64,
    pub cached_reported: bool,
    pub tok_out: u64,
    pub seals: u32,
}

impl View for Report {
    type V = ReportV;

    open spec fn view(&self) -> ReportV {
        ReportV {
            final_msg: self.final_msg@,
            turns: self.turns,
            wall_ms: self.wall_ms,
            model_ms: self.model_ms,
            ttft_ms_sum: self.ttft_ms_sum,
            tool_ms: self.tool_ms,
            render_us: self.render_us,
            sent_tokens: self.sent_tokens,
            out_chars: self.out_chars,
            commands: self.commands,
            tok_in: self.tok_in,
            tok_cached: self.tok_cached,
            cached_reported: self.cached_reported,
            tok_out: self.tok_out,
            seals: self.seals,
        }
    }
}

/// A report of nothing.
pub open spec fn blank_report() -> ReportV {
    ReportV {
        final_msg: ""@,
        turns: 0,
        wall_ms: 0,
        model_ms: 0,
        ttft_ms_sum: 0,
        tool_ms: 0,
        render_us: 0,
        sent_tokens: 0,
        out_chars: 0,
        commands: 0,
        tok_in: 0,
        tok_cached: 0,
        cached_reported: false,
        tok_out: 0,
        seals: 0,
    }
}

impl Default for Report {
    fn default() -> (r: Self)
        ensures
            r@ == blank_report(),
    {
        Report {
            final_msg: "".to_string(),
            turns: 0,
            wall_ms: 0,
            model_ms: 0,
            ttft_ms_sum: 0,
            tool_ms: 0,
            render_us: 0,
            sent_tokens: 0,
            out_chars: 0,
            commands: 0,
            tok_in: 0,
            tok_cached: 0,
            cached_reported: false,
            tok_out: 0,
            seals: 0,
        }
    }
}

// ---------------------------------------------------------------------------
// How commands and messages read
// ---------------------------------------------------------------------------

/// The first `n` lines of `s` on one line.
pub open spec fn first_lines_of(s: Seq<char>, n: int) -> Seq<char> {
    let lines = lines_of(s);
    joined(
        lines.take(
            if n < lines.len() {
                n
            } else {
                lines.len() as int
            },
        ),
        " | "@,
    )
}

pub fn first_lines(s: &str, n: usize) -> (r: String)
    ensures
        r@ == first_lines_of(s@, n as int),
{
    let lines = text::lines(s);
    assert(lines_of(s@).len() == lines@.len());
    let k: usize = if n < lines.len() {
        n
    } else {
        lines.len()
    };
    assert(lines_of(s@).subrange(0, k as int) =~= lines_of(s@).take(k as int));
    text::join_range(&lines, 0, k, " | ")
}

/// Whether a line is prompt scaffolding or tool-call markup that a model bleeds
/// after its real answer; nothing legitimate starts a line with these.
pub open spec fn is_scaffold(line: Seq<char>) -> bool {
    let t = trimmed_start(line);
    ||| begins(t, "## TASK"@)
    ||| begins(t, "## LOG"@)
    ||| begins(t, "## NOW"@)
    ||| begins(t, "files: #"@)
    ||| begins(t, "<|"@)
    ||| begins(t, "<invoke"@)
    ||| begins(t, "</invoke"@)
    ||| begins(t, "<function_"@)
    ||| begins(t, "</function"@)
    ||| begins(t, "[TOOL_CALLS]"@)
}

fn scaffold(line: &str) -> (r: bool)
    ensures
        r == is_scaffold(line@),
{
    let t = text::trim_start(line);
    text::starts_with(&t, "## TASK") || text::starts_with(&t, "## LOG") || text::starts_with(
        &t,
        "## NOW",
    ) || text::starts_with(&t, "files: #") || text::starts_with(&t, "<|") || text::starts_with(
        &t,
        "<invoke",
    ) || text::starts_with(&t, "</invoke") || text::starts_with(&t, "<function_")
        || text::starts_with(&t, "</function") || text::starts_with(&t, "[TOOL_CALLS]")
}

/// How many lines, from `i` on, come before the first that is scaffolding.
pub open spec fn real_lines(lines: Seq<Seq<char>>, i: int) -> int
    decreases lines.len() - i,
{
    if 0 <= i < lines.len() && !is_scaffold(lines[i]) {
        real_lines(lines, i + 1)
    } else {
        i
    }
}

/// A final message without the scaffolding after it.
pub open spec fn cleaned(msg: Seq<char>) -> Seq<char> {
    let lines = lines_of(msg);
    trimmed(joined(lines.take(real_lines(lines, 0)), "\n"@))
}

/// D swallows the rest of the stream, so a degenerating model can append
/// hallucinated scaffolding after its real answer: cut at the first such line.
pub fn clean_final(msg: &str) -> (r: String)
    ensures
        r@ == cleaned(msg@),
{
    let lines = text::lines(msg);
    let mut i: usize = 0;
    while i < lines.len() && !scaffold(&lines[i])
        invariant
            i <= lines@.len(),
            texts(lines@) == lines_of(msg@),
            real_lines(lines_of(msg@), 0) == real_lines(lines_of(msg@), i as int),
        decreases lines@.len() - i,
    {
        assert(texts(lines@)[i as int] == lines@[i as int]@);
        i = i + 1;
    }
    proof {
        if i < lines@.len() {
            assert(texts(lines@)[i as int] == lines@[i as int]@);
        }
        assert(lines_of(msg@).subrange(0, i as int) =~= lines_of(msg@).take(i as int));
    }
    text::trim(&text::join_range(&lines, 0, i, "\n"))
}

/// How a command reads in the log. It starts with its verb letter.
pub open spec fn action_text(c: CmdV) -> Seq<char> {
    match c {
        CmdV::Read { target, range } => match range {
            Some((x, y)) => "R "@ + target + " "@ + decimal(x as nat) + ":"@ + decimal(y as nat),
            None => "R "@ + target,
        },
        CmdV::Edit { target, a, b, body } => "E "@ + target + " "@ + decimal(a as nat) + ":"@
            + decimal(b as nat) + " (+"@ + decimal(lines_of(body).len()) + " lines)"@,
        CmdV::Insert { target, after, body } => "I "@ + target + " "@ + decimal(after as nat) + " (+"@
            + decimal(lines_of(body).len()) + " lines)"@,
        CmdV::New { path, body } => "N "@ + path + " (+"@ + decimal(lines_of(body).len())
            + " lines)"@,
        CmdV::Grep { pat, target } => match target {
            Some(t) => "G \""@ + pat + "\" "@ + t,
            None => "G \""@ + pat + "\""@,
        },
        CmdV::Exec { line } => if lines_of(line).len() <= 1 {
            "X "@ + line
        } else {
            "X "@ + first_line(line) + " …(+"@ + decimal((lines_of(line).len() - 1) as nat)
                + " script lines)"@
        },
        CmdV::Custom { verb, args } => seq![verb] + " "@ + args,
        CmdV::Agent { profile, task } => "A "@ + profile + " "@ + task,
        CmdV::Done { .. } => "D"@,
        CmdV::View { target } => "V "@ + target,
        CmdV::Say { text } => "S "@ + clipped(text, 60),
        CmdV::Outline { target } => "O "@ + target,
        CmdV::Replace { target, .. } => "E "@ + target + " (replace)"@,
        CmdV::PlanStep { id, status } => "P "@ + id + " "@ + status,
        CmdV::Think { .. } => "B"@,
    }
}

fn with_lines(out: &mut String, body: &str)
    ensures
        final(out)@ == old(out)@ + " (+"@ + decimal(lines_of(body@).len()) + " lines)"@,
{
    out.append(" (+");
    let (_, n) = text::line_count(body);
    let count = text::dec(n as u64);
    out.append(&count);
    out.append(" lines)");
}

/// Every action string starts with its verb letter, so the verb needs no
/// second lookup table.
pub fn action_of(cmd: &Cmd) -> (r: String)
    ensures
        r@ == action_text(cmd@),
{
    match cmd {
        Cmd::Read { target, range } => {
            let mut r = "R ".to_string();
            r.append(target);
            if let Some((x, y)) = range {
                r.append(" ");
                let a = text::dec(*x as u64);
                r.append(&a);
                r.append(":");
                let b = text::dec(*y as u64);
                r.append(&b);
            }
            r
        },
        Cmd::Edit { target, a, b, body } => {
            let mut r = "E ".to_string();
            r.append(target);
            r.append(" ");
            let x = text::dec(*a as u64);
            r.append(&x);
            r.append(":");
            let y = text::dec(*b as u64);
            r.append(&y);
            with_lines(&mut r, body);
            r
        },
        Cmd::Insert { target, after, body } => {
            let mut r = "I ".to_string();
            r.append(target);
            r.append(" ");
            let x = text::dec(*after as u64);
            r.append(&x);
            with_lines(&mut r, body);
            r
        },
        Cmd::New { path, body } => {
            let mut r = "N ".to_string();
            r.append(path);
            with_lines(&mut r, body);
            r
        },
        Cmd::Grep { pat, target } => {
            let mut r = "G \"".to_string();
            r.append(pat);
            match target {
                Some(t) => {
                    r.append("\" ");
                    r.append(t);
                },
                None => {
                    r.append("\"");
                },
            }
            r
        },
        Cmd::Exec { line } => {
            let (first, n) = text::line_count(line);
            let mut r = "X ".to_string();
            if n <= 1 {
                r.append(line);
            } else {
                r.append(&first);
                r.append(" …(+");
                let more = text::dec((n - 1) as u64);
                r.append(&more);
                r.append(" script lines)");
            }
            r
        },
        Cmd::Custom { verb, args } => {
            let mut r = String::new();
            r.push(*verb);
            r.append(" ");
            r.append(args);
            assert(r@ =~= seq![*verb] + " "@ + args@);
            r
        },
        Cmd::Agent { profile, task } => {
            let mut r = "A ".to_string();
            r.append(profile);
            r.append(" ");
            r.append(task);
            r
        },
        Cmd::Done { .. } => "D".to_string(),
        Cmd::View { target } => {
            let mut r = "V ".to_string();
            r.append(target);
            r
        },
        Cmd::Say { text: said } => {
            let mut r = "S ".to_string();
            let shown = clip(said, 60);
            r.append(&shown);
            r
        },
        Cmd::Outline { target } => {
            let mut r = "O ".to_string();
            r.append(target);
            r
        },
        Cmd::Replace { target, .. } => {
            let mut r = "E ".to_string();
            r.append(target);
            r.append(" (replace)");
            r
        },
        Cmd::PlanStep { id, status } => {
            let mut r = "P ".to_string();
            r.append(id);
            r.append(" ");
            r.append(status);
            r
        },
        Cmd::Think { .. } => "B".to_string(),
    }
}

/// The verb letter of a command.
pub open spec fn verb_of(c: CmdV) -> char {
    match c {
        CmdV::Read { .. } => 'R',
        CmdV::Edit { .. } => 'E',
        CmdV::Insert { .. } => 'I',
        CmdV::New { .. } => 'N',
        CmdV::Grep { .. } => 'G',
        CmdV::Exec { .. } => 'X',
        CmdV::Custom { verb, .. } => verb,
        CmdV::Agent { .. } => 'A',
        CmdV::Done { .. } => 'D',
        CmdV::View { .. } => 'V',
        CmdV::Say { .. } => 'S',
        CmdV::Outline { .. } => 'O',
        CmdV::Replace { .. } => 'E',
        CmdV::PlanStep { .. } => 'P',
        CmdV::Think { .. } => 'B',
    }
}

pub fn verb(cmd: &Cmd) -> (v: char)
    ensures
        v == verb_of(cmd@),
{
    match cmd {
        Cmd::Read { .. } => 'R',
        Cmd::Edit { .. } => 'E',
        Cmd::Insert { .. } => 'I',
        Cmd::New { .. } => 'N',
        Cmd::Grep { .. } => 'G',
        Cmd::Exec { .. } => 'X',
        Cmd::Custom { verb: v, .. } => *v,
        Cmd::Agent { .. } => 'A',
        Cmd::Done { .. } => 'D',
        Cmd::View { .. } => 'V',
        Cmd::Say { .. } => 'S',
        Cmd::Outline { .. } => 'O',
        Cmd::Replace { .. } => 'E',
        Cmd::PlanStep { .. } => 'P',
        Cmd::Think { .. } => 'B',
    }
}

/// Every action reads with its verb letter first.
pub proof fn actions_start_with_their_verb(c: CmdV)
    ensures
        action_text(c).len() > 0,
        action_text(c)[0] == verb_of(c),
{
    reveal_strlit("R ");
    reveal_strlit("E ");
    reveal_strlit("I ");
    reveal_strlit("N ");
    reveal_strlit("G \"");
    reveal_strlit("X ");
    reveal_strlit("A ");
    reveal_strlit("D");
    reveal_strlit("V ");
    reveal_strlit("S ");
    reveal_strlit("O ");
    reveal_strlit("P ");
    reveal_strlit("B");
}

/// A result held to a number of bytes.
pub open spec fn capped(s: Seq<char>, max: int) -> Seq<char> {
    if byte_len(s) > max {
        clipped(s, max) + "\n…(result capped)"@
    } else {
        s
    }
}

pub fn cap(s: String, max: usize) -> (r: String)
    ensures
        r@ == capped(s@, max as int),
{
    if text::bytes_in(&s) > max {
        let mut r = clip(&s, max);
        r.append("\n…(result capped)");
        r
    } else {
        s
    }
}

// ---------------------------------------------------------------------------
// Commands after a D
// ---------------------------------------------------------------------------

/// Whether a command can be run as it stands: subagents need a known profile,
/// custom verbs a known tool, and a D is no work.
pub open spec fn runnable(cfg: Config, c: CmdV) -> bool {
    match c {
        CmdV::Done { .. } => false,
        CmdV::Agent { profile, .. } => lookup(cfg.profile@, profile) is Some,
        CmdV::Custom { verb, .. } => lookup(cfg.tool@, seq![verb]) is Some,
        _ => true,
    }
}

/// The runnable ones of the first `n` commands.
pub open spec fn runnable_of(cfg: Config, v: Seq<CmdV>, n: int) -> Seq<CmdV>
    decreases n,
{
    if n <= 0 {
        Seq::empty()
    } else if runnable(cfg, v[n - 1]) {
        runnable_of(cfg, v, n - 1).push(v[n - 1])
    } else {
        runnable_of(cfg, v, n - 1)
    }
}

/// The first D from `i` on.
pub open spec fn done_at(v: Seq<CmdV>, i: int) -> Option<int>
    decreases v.len() - i,
{
    if 0 <= i < v.len() {
        if v[i] is Done {
            Some(i)
        } else {
            done_at(v, i + 1)
        }
    } else {
        None
    }
}

/// What follows the first line of a message.
pub open spec fn after_first_line(msg: Seq<char>) -> Seq<char> {
    let lines = lines_of(msg);
    if lines.len() > 0 {
        joined(lines.drop_first(), "\n"@)
    } else {
        Seq::empty()
    }
}

/// The commands that a text holds when it is read on its own.
pub open spec fn commands_in(s: Seq<char>) -> Seq<CmdV> {
    let (st, first) = lexed(fresh(false), s);
    first + lexed_end(st).1
}

/// What a D message turns into: where its later lines hold commands that can
/// run, the first line becomes talk and the commands stand in its place;
/// otherwise the D stands.
pub open spec fn rescued_from(cfg: Config, msg: Seq<char>) -> Option<Seq<CmdV>> {
    let rest = after_first_line(msg);
    let first = trimmed(first_line(msg));
    let found = commands_in(rest + "\n"@);
    let work = runnable_of(cfg, found, found.len() as int);
    if trimmed(rest).len() == 0 || work.len() == 0 {
        None
    } else if first.len() > 0 {
        Some(seq![CmdV::Say { text: first }] + work)
    } else {
        Some(work)
    }
}

/// The commands of a turn with the first D replaced by the work it swallowed.
pub open spec fn rescued(cfg: Config, v: Seq<CmdV>) -> Seq<CmdV> {
    match done_at(v, 0) {
        Some(i) => match rescued_from(cfg, v[i]->Done_msg) {
            Some(work) => v.take(i) + work + v.skip(i + 1),
            None => v,
        },
        None => v,
    }
}

fn can_run(cfg: &Config, c: &Cmd) -> (r: bool)
    ensures
        r == runnable(*cfg, c@),
{
    match c {
        Cmd::Done { .. } => false,
        Cmd::Agent { profile, .. } => cfg.profile.contains_key(profile),
        Cmd::Custom { verb: v, .. } => {
            let mut key = String::new();
            key.push(*v);
            assert(key@ =~= seq![*v]);
            cfg.tool.contains_key(&key)
        },
        _ => true,
    }
}

/// Models write "D let me check that\nW <url>", but D swallows the rest of the
/// stream, so the W would never run. When a D message contains lines that
/// parse into runnable commands: the first line becomes an S (the talk), the
/// commands execute, the run continues.
pub fn rescue_done(v: Vec<Cmd>, cfg: &Config) -> (r: Vec<Cmd>)
    ensures
        cmds(r@) == rescued(*cfg, cmds(v@)),
{
    let ghost all = cmds(v@);
    let mut at: usize = 0;
    while at < v.len() && !matches!(&v[at], Cmd::Done { .. })
        invariant
            at <= v@.len(),
            all == cmds(v@),
            done_at(all, 0) == done_at(all, at as int),
        decreases v@.len() - at,
    {
        assert(all[at as int] == v@[at as int]@);
        at = at + 1;
    }
    if at == v.len() {
        return v;
    }
    assert(all[at as int] == v@[at as int]@);
    let msg: &String = match &v[at] {
        Cmd::Done { msg } => msg,
        _ => {
            return v;
        },
    };
    let lines = text::lines(msg);
    assert(lines_of(msg@).len() == lines@.len());
    let (first, _) = text::line_count(msg);
    let first = text::trim(&first);
    let rest = if lines.len() > 0 {
        text::join_range(&lines, 1, lines.len(), "\n")
    } else {
        String::new()
    };
    proof {
        if lines@.len() > 0 {
            assert(lines_of(msg@).subrange(1, lines@.len() as int) =~= lines_of(msg@).drop_first());
        }
        assert(rest@ == after_first_line(msg@));
    }
    if text::empty(&text::trim(&rest)) {
        return v;
    }
    let mut fed = rest;
    fed.append("\n");
    let mut lx = Lexer::new();
    let mut found: Vec<Cmd> = Vec::new();
    assert(cmds(found@) =~= Seq::<CmdV>::empty());
    lx.feed(&fed, &mut found);
    lx.finish(&mut found);
    let ghost fv = cmds(found@);
    proof {
        assert(fv =~= commands_in(fed@));
    }
    let mut work: Vec<Cmd> = Vec::new();
    let has_talk = !text::empty(&first);
    if has_talk {
        work.push(Cmd::Say { text: first });
    }
    let ghost talk: Seq<CmdV> = if has_talk {
        seq![CmdV::Say { text: first@ }]
    } else {
        Seq::empty()
    };
    let mut n: usize = 0;
    let mut rest_cmds = found;
    let mut kept: Vec<Cmd> = Vec::new();
    let total = rest_cmds.len();
    assert(cmds(kept@) =~= Seq::<CmdV>::empty());
    assert(rest_cmds@.skip(0) =~= rest_cmds@);
    let ghost src = rest_cmds@;
    while n < total
        invariant
            n <= total,
            total == src.len(),
            rest_cmds@ == src.skip(n as int),
            fv == cmds(src),
            cmds(kept@) == runnable_of(*cfg, fv, n as int),
        decreases total - n,
    {
        let c = rest_cmds.remove(0);
        proof {
            assert(c == src[n as int]);
            assert(fv[n as int] == c@);
            assert(rest_cmds@ =~= src.skip(n + 1));
        }
        if can_run(cfg, &c) {
            proof {
                lemma_cmds_push(kept@, c);
            }
            kept.push(c);
        }
        n = n + 1;
    }
    assert(cmds(kept@).len() == kept@.len());
    if kept.len() == 0 {
        return v;
    }
    let ghost kv = cmds(kept@);
    let mut v = v;
    let ghost v0 = v@;
    let mut tail = v.split_off(at);
    let ghost tail0 = tail@;
    let _ = tail.remove(0);
    v.append(&mut work);
    v.append(&mut kept);
    v.append(&mut tail);
    proof {
        assert(tail0 =~= v0.skip(at as int));
        assert(cmds(v@) =~= all.take(at as int) + (talk + kv) + all.skip(at + 1));
        if has_talk {
            assert(talk + kv =~= seq![CmdV::Say { text: first@ }] + kv);
        } else {
            assert(talk + kv =~= kv);
        }
    }
    v
}

// ---------------------------------------------------------------------------
// Distilling
// ---------------------------------------------------------------------------

/// The prompt that distills a tool's output, if it is long enough to be worth
/// a model call.
pub open spec fn distill_prompt_of(cfg: Config, task: Seq<char>, text: Seq<char>) -> Option<
    Seq<char>,
> {
    if byte_len(text) < 600 {
        None
    } else {
        Some(replaced(replaced(cfg.distill.prompt@, "{task}"@, task), "{text}"@, text))
    }
}

pub fn distill_prompt(cfg: &Config, task: &str, text: &str) -> (r: Option<String>)
    ensures
        opt_text(r) == distill_prompt_of(*cfg, task@, text@),
{
    if text::bytes_in(text) < 600 {
        None
    } else {
        let p = text::replace(&cfg.distill.prompt, "{task}", task);
        Some(text::replace(&p, "{text}", text))
    }
}

/// What stands for a distilled output: the model's extract, or the ends of the
/// output where the call failed.
pub open spec fn distilled_text(text: Seq<char>, reply: Option<Seq<char>>) -> Seq<char> {
    match reply {
        Some(d) => "(distilled from "@ + decimal(byte_len(text)) + " chars)\n"@ + trimmed(d),
        None => pruned("head_tail:30,10"@, text),
    }
}

pub fn distilled(text: &str, reply: Option<String>) -> (r: String)
    ensures
        r@ == distilled_text(text@, opt_text(reply)),
{
    match reply {
        Some(d) => {
            let mut r = "(distilled from ".to_string();
            let n = text::dec(text::bytes_in(text) as u64);
            r.append(&n);
            r.append(" chars)\n");
            let t = text::trim(&d);
            r.append(&t);
            r
        },
        None => prune("head_tail:30,10", text),
    }
}

// ---------------------------------------------------------------------------
// The system prompt
// ---------------------------------------------------------------------------

/// The identity line, unless the config replaces it.
pub const IDENTITY: &'static str =
    "You are haste, a fast coding agent. You act ONLY by emitting command lines. No prose, no markdown, no explanations — command lines only.\n";

/// What a subagent is told about its leader.
pub const SUBAGENT: &'static str =
    "You are a subagent: the leader is waiting on your brief — finish with D as soon as you have the answer; do not keep polishing.\n";

/// The reference line of the verb R.
pub const HELP_R: &'static str =
    "R <id|path> [a:b]   read file, numbered lines\n";

/// The reference line of the verb E.
pub const HELP_E: &'static str =
    "E <id> <a>:<b>      replace lines a..b; content lines follow; end with a line that is only \".\"\n";

/// The reference line of the verb I.
pub const HELP_I: &'static str =
    "I <id> <a>          insert after line a (0=top); content follows, end \".\"\n";

/// The reference line of the verb N.
pub const HELP_N: &'static str =
    "N <path>            create file; content follows, end \".\"\n";

/// The reference line of the verb G.
pub const HELP_G: &'static str =
    "G <regex> [id|path] search files, results as #id:line:text\n";

/// The reference line of the verb O.
pub const HELP_O: &'static str =
    "O [id|path|dir]     outline: signatures with line numbers, bodies elided — orient cheaply BEFORE reading\n";

/// The reference line of the verb X.
pub const HELP_X: &'static str =
    "X <command>         run ONE shell command line in the repo root. Multi-line script: `X <<` alone, then the script lines, end with a line that is only \".\"\n";

/// The reference line of the verb V.
pub const HELP_V: &'static str =
    "V <id|path>         view an image file (png/jpg/webp/gif) — you SEE it in the next turn\n";

/// The start of the reference line of the verb A; the profiles follow.
pub const HELP_A: &'static str =
    "A <profile> <task>  start a BACKGROUND subagent; its [profile] brief arrives as a result in a later turn — keep working meanwhile. Profiles: ";

/// The reference line of the verb P.
pub const HELP_P: &'static str =
    "P <step-id> <status> set a plan step to todo|doing|done|skip (the harness edits the plan file)\n";

/// The reference line of the verb B.
pub const HELP_B: &'static str =
    "B <why>             request deliberation (slow, thorough thinking) for your next turns — ONLY when genuinely stuck or the step is subtle; max 2 per run\n";

/// The reference line of the verb S.
pub const HELP_S: &'static str =
    "S <text>            say to the user and KEEP WORKING — S never ends the run. Multi-line message: `S <<` alone, then the lines, end with a line that is only \".\"\n";

/// The reference line of the verb D.
pub const HELP_D: &'static str =
    "D <message>         the ONLY way to end the run: you are finished, or you need the user. Message is your final report (may span lines to end of message)\n";

/// The rules and an example message.
pub const RULES_TEXT: &'static str =
    "Rules: files get ids (#0,#1..) listed in the files: header — refer to them by id (with or without #). In E/I/N content, a line that must start with \".\" gets one extra \".\" prefix. Batch independent commands in one message. Results arrive in the next message. Edit results already show the updated lines — do not re-read a file after editing it. Never emit long runs of one repeated character (dashes, =, !); keep separators under 40 chars. Verify edits by running checks/tests. Be terse. The deliverable is exactly the files the task names: never leave helper scripts, scratch files, or test DBs in the project tree (scratch goes in .haste/), and never move required logic out of a named deliverable into a companion file the task did not ask for.\nExample message (nothing but commands):\nR config.py\nG \"load_cfg\" src\nX python tests.py\n";

/// The plan protocol; the name of the plan file stands before it.
pub const PLAN_HELP: &'static str =
    " ONCE with N before your first edit — only a task you can finish in a single command may skip it. Keep it SHORT: a checklist, not a document. After that NEVER rewrite, delete or re-create it — change a status with P alone (`P schema done`), which costs one line. Format: {\"goal\":\"...\",\"steps\":[{\"id\":\"..\",\"what\":\"..\",\"status\":\"todo\",\"needs\":[],\"verify\":\"shell cmd\"}]}. It is a live state machine and P is how you move it. Marking a step done runs its verify automatically and REVERTS the status if it fails — and REVERTS it too while any step in its needs is still open. Steps whose needs are all met are INDEPENDENT: work them in parallel (one subagent per step). D is refused while steps are open — finish them or descope with status \"skip\".\n";

/// `s` where `b` holds, nothing otherwise.
pub open spec fn when(b: bool, s: Seq<char>) -> Seq<char> {
    if b {
        s
    } else {
        Seq::empty()
    }
}

fn push_when(out: &mut String, b: bool, s: &str)
    ensures
        final(out)@ == old(out)@ + when(b, s@),
{
    if b {
        out.append(s);
    }
    assert(out@ =~= old(out)@ + when(b, s@));
}

/// Whether a profile may use a verb; without a profile every verb is allowed.
pub open spec fn allows(allowed: Option<Seq<char>>, v: char) -> bool {
    match allowed {
        Some(a) => a.contains(v),
        None => true,
    }
}

fn allow(allowed: &Option<String>, v: char) -> (r: bool)
    ensures
        r == allows(opt_text(*allowed), v),
{
    match allowed {
        Some(a) => crate::config::has_char(a, v),
        None => true,
    }
}

/// The reference line of a configured tool.
pub open spec fn tool_row(verb: Seq<char>, t: ToolCfg) -> Seq<char> {
    verb + " <args>            "@ + t.desc@ + "\n"@
}

/// The reference lines of the first `n` tools.
pub open spec fn tool_rows(
    rows: Seq<(Seq<char>, ToolCfg)>,
    allowed: Option<Seq<char>>,
    n: int,
) -> Seq<char>
    decreases n,
{
    if n <= 0 {
        Seq::empty()
    } else {
        let (verb, t) = rows[n - 1];
        tool_rows(rows, allowed, n - 1) + when(
            verb.len() > 0 && allows(allowed, verb[0]),
            tool_row(verb, t),
        )
    }
}

/// Whether deliberation can be asked for.
pub open spec fn think_on(cfg: Config, sig: Seq<char>) -> bool {
    match cfg.model.think {
        Some(t) => texts(t.on@).contains(sig),
        None => false,
    }
}

/// Whether the signal arms deliberation.
pub fn thinks_on(cfg: &Config, sig: &str) -> (r: bool)
    ensures
        r == think_on(*cfg, sig@),
{
    match &cfg.model.think {
        Some(t) => text::lists(&t.on, sig),
        None => false,
    }
}

/// The identity line.
pub open spec fn identity(cfg: Config) -> Seq<char> {
    match cfg.prompt.system {
        Some(id) => trimmed_end(id@) + "\n"@,
        None => IDENTITY@,
    }
}

/// What a profile adds to the identity.
pub open spec fn profile_part(profile: Option<Seq<char>>) -> Seq<char> {
    match profile {
        Some(p) => p + "\n"@ + SUBAGENT@,
        None => Seq::empty(),
    }
}

/// The command reference.
pub open spec fn reference(cfg: Config, allowed: Option<Seq<char>>) -> Seq<char> {
    "Commands (one per line):\n"@ + when(allows(allowed, 'R'), HELP_R@) + when(
        allows(allowed, 'E'),
        HELP_E@,
    ) + when(allows(allowed, 'I'), HELP_I@) + when(allows(allowed, 'N'), HELP_N@) + when(
        allows(allowed, 'G'),
        HELP_G@,
    ) + when(allows(allowed, 'O'), HELP_O@) + when(allows(allowed, 'X'), HELP_X@) + when(
        allows(allowed, 'V'),
        HELP_V@,
    ) + when(
        allows(allowed, 'A') && cfg.profile@.len() > 0,
        HELP_A@ + joined(keys_in(cfg.profile@), ", "@) + "\n"@,
    ) + tool_rows(cfg.tool@, allowed, cfg.tool@.len() as int) + when(allows(allowed, 'P'), HELP_P@)
        + when(think_on(cfg, "request"@), HELP_B@) + HELP_S@ + HELP_D@
}

/// The rules, what mods and the config add to them, and the plan protocol.
pub open spec fn rules(cfg: Config) -> Seq<char> {
    RULES_TEXT@ + cfg.prompt_extra@ + when(
        trimmed(cfg.prompt.extra@).len() > 0,
        trimmed(cfg.prompt.extra@) + "\n"@,
    ) + (match cfg.verify.cmd {
        Some(v) => "After any turn where you edit files, `"@ + v@
            + "` runs AUTOMATICALLY and its result is shown — never run it yourself.\n"@,
        None => Seq::empty(),
    }) + "Plan: create "@ + cfg.plan.file@ + PLAN_HELP@
}

/// The system prompt.
pub open spec fn system_text(
    cfg: Config,
    profile: Option<Seq<char>>,
    allowed: Option<Seq<char>>,
) -> Seq<char> {
    identity(cfg) + profile_part(profile) + reference(cfg, allowed) + rules(cfg)
}

fn push_reference(s: &mut String, cfg: &Config, allowed: &Option<String>)
    ensures
        final(s)@ == old(s)@ + reference(*cfg, opt_text(*allowed)),
{
    let mut r = "Commands (one per line):\n".to_string();
    push_when(&mut r, allow(allowed, 'R'), HELP_R);
    push_when(&mut r, allow(allowed, 'E'), HELP_E);
    push_when(&mut r, allow(allowed, 'I'), HELP_I);
    push_when(&mut r, allow(allowed, 'N'), HELP_N);
    push_when(&mut r, allow(allowed, 'G'), HELP_G);
    push_when(&mut r, allow(allowed, 'O'), HELP_O);
    push_when(&mut r, allow(allowed, 'X'), HELP_X);
    push_when(&mut r, allow(allowed, 'V'), HELP_V);
    let mut agents = HELP_A.to_string();
    let names = text::join(&cfg.profile.keys(), ", ");
    agents.append(&names);
    agents.append("\n");
    push_when(&mut r, allow(allowed, 'A') && cfg.profile.len() > 0, &agents);
    let ghost head = r@;
    let mut i: usize = 0;
    assert(r@ =~= head + tool_rows(cfg.tool@, opt_text(*allowed), 0));
    while i < cfg.tool.items.len()
        invariant
            i <= cfg.tool@.len(),
            r@ == head + tool_rows(cfg.tool@, opt_text(*allowed), i as int),
        decreases cfg.tool@.len() - i,
    {
        let name = &cfg.tool.items[i].0;
        assert(cfg.tool@[i as int] == (name@, cfg.tool.items@[i as int].1));
        let v = text::chars_of(name);
        let shown = v.len() > 0 && allow(allowed, v[0]);
        let mut row = name.clone();
        row.append(" <args>            ");
        row.append(&cfg.tool.items[i].1.desc);
        row.append("\n");
        push_when(&mut r, shown, &row);
        assert(r@ =~= head + tool_rows(cfg.tool@, opt_text(*allowed), i + 1));
        i = i + 1;
    }
    push_when(&mut r, allow(allowed, 'P'), HELP_P);
    push_when(&mut r, thinks_on(cfg, "request"), HELP_B);
    r.append(HELP_S);
    r.append(HELP_D);
    s.append(&r);
}

fn push_rules(s: &mut String, cfg: &Config)
    ensures
        final(s)@ == old(s)@ + rules(*cfg),
{
    let mut r = RULES_TEXT.to_string();
    r.append(&cfg.prompt_extra);
    let extra = text::trim(&cfg.prompt.extra);
    let mut line = extra.clone();
    line.append("\n");
    push_when(&mut r, !text::empty(&extra), &line);
    let mut check = String::new();
    if let Some(v) = &cfg.verify.cmd {
        check = "After any turn where you edit files, `".to_string();
        check.append(v);
        check.append("` runs AUTOMATICALLY and its result is shown — never run it yourself.\n");
    }
    r.append(&check);
    r.append("Plan: create ");
    r.append(&cfg.plan.file);
    r.append(PLAN_HELP);
    s.append(&r);
}

/// The system prompt: who the agent is, the commands it may use, the rules,
/// and the plan protocol. It matches what the lexer parses.
pub fn build_system(
    cfg: &Config,
    profile_system: &Option<String>,
    allowed: &Option<String>,
) -> (r: String)
    ensures
        r@ == system_text(*cfg, opt_text(*profile_system), opt_text(*allowed)),
{
    let mut s = match &cfg.prompt.system {
        Some(id) => {
            let mut t = text::trim_end(id);
            t.append("\n");
            t
        },
        None => IDENTITY.to_string(),
    };
    let mut part = String::new();
    if let Some(ps) = profile_system {
        part.append(ps);
        part.append("\n");
        part.append(SUBAGENT);
        assert(part@ =~= ps@ + "\n"@ + SUBAGENT@);
    }
    s.append(&part);
    push_reference(&mut s, cfg, allowed);
    push_rules(&mut s, cfg);
    s
}

/// A read in the ledger is written as its command: read as a line, it is that
/// read again.
pub proof fn reads_are_written_as_their_commands(st: LexV, word: Seq<char>, a: usize, b: usize)
    requires
        at_rest(st),
        is_word(word),
    ensures
        ({
            let read = CmdV::Read { target: word, range: None };
            let part = CmdV::Read { target: word, range: Some((a, b)) };
            &&& lexed(st, action_text(read) + seq!['\n']) == (st, seq![read])
            &&& lexed(st, action_text(part) + seq!['\n']) == (st, seq![part])
        }),
{
    let end = seq!['\n'];
    reveal_strlit("R ");
    reveal_strlit(" ");
    reveal_strlit(":");
    crate::dsl::a_read_is_read(st, word, a, b);
    let x = decimal(a as nat);
    let y = decimal(b as nat);
    assert(action_text(CmdV::Read { target: word, range: None }) + end =~= seq!['R', ' '] + word
        + end);
    assert(action_text(CmdV::Read { target: word, range: Some((a, b)) }) + end =~= seq!['R', ' '] + (
    word + seq![' '] + (x + seq![':'] + y)) + end);
}

/// A search in the ledger is written as its command, the pattern in quotes: read
/// as a line, it is that search again.
pub proof fn searches_are_written_as_their_commands(
    st: LexV,
    word: Seq<char>,
    phrase: Seq<char>,
    quoted: Seq<char>,
)
    requires
        at_rest(st),
        is_word(word),
        word[0] != '"',
        is_phrase(phrase),
        quoted.len() > 0,
        !quoted.contains('"'),
        !quoted.contains('\n'),
    ensures
        ({
            let all = CmdV::Grep { pat: quoted, target: None };
            let some = CmdV::Grep { pat: quoted, target: Some(phrase) };
            &&& lexed(st, action_text(all) + seq!['\n']) == (st, seq![all])
            &&& lexed(st, action_text(some) + seq!['\n']) == (st, seq![some])
        }),
{
    let end = seq!['\n'];
    reveal_strlit("G \"");
    reveal_strlit("\" ");
    reveal_strlit("\"");
    crate::dsl::a_search_is_read(st, word, quoted, phrase);
    let q = seq!['"'] + quoted + seq!['"'];
    assert(action_text(CmdV::Grep { pat: quoted, target: None }) + end =~= seq!['G', ' '] + q + end);
    assert(action_text(CmdV::Grep { pat: quoted, target: Some(phrase) }) + end =~= seq!['G', ' '] + (q
        + seq![' '] + phrase) + end);
}

/// A run, an outline and a view in the ledger are written as their commands: read
/// as a line, each is that command again.
pub proof fn runs_and_views_are_written_as_their_commands(st: LexV, phrase: Seq<char>)
    requires
        at_rest(st),
        is_phrase(phrase),
        phrase != seq!['<', '<'],
    ensures
        ({
            let run = CmdV::Exec { line: phrase };
            let outline = CmdV::Outline { target: phrase };
            let view = CmdV::View { target: phrase };
            &&& lexed(st, action_text(run) + seq!['\n']) == (st, seq![run])
            &&& lexed(st, action_text(outline) + seq!['\n']) == (st, seq![outline])
            &&& lexed(st, action_text(view) + seq!['\n']) == (st, seq![view])
        }),
{
    let end = seq!['\n'];
    reveal_strlit("X ");
    reveal_strlit("O ");
    reveal_strlit("V ");
    crate::dsl::what_runs_and_what_is_said(st, phrase, Seq::<Seq<char>>::empty());
    crate::dsl::the_rest_is_one_argument(st, phrase, 'V');
    text::lemma_lines_one(phrase);
    assert(action_text(CmdV::Exec { line: phrase }) + end =~= seq!['X', ' '] + phrase + end);
    assert(action_text(CmdV::Outline { target: phrase }) + end =~= seq!['O', ' '] + phrase + end);
    assert(action_text(CmdV::View { target: phrase }) + end =~= seq!['V', ' '] + phrase + end);
}

/// A subagent and a plan step in the ledger are written as their commands: read
/// as a line, each is that command again.
pub proof fn agents_and_steps_are_written_as_their_commands(
    st: LexV,
    word: Seq<char>,
    phrase: Seq<char>,
)
    requires
        at_rest(st),
        is_word(word),
        is_phrase(phrase),
    ensures
        ({
            let agent = CmdV::Agent { profile: word, task: phrase };
            let step = CmdV::PlanStep { id: word, status: phrase };
            &&& lexed(st, action_text(agent) + seq!['\n']) == (st, seq![agent])
            &&& lexed(st, action_text(step) + seq!['\n']) == (st, seq![step])
        }),
{
    let end = seq!['\n'];
    reveal_strlit("A ");
    reveal_strlit("P ");
    reveal_strlit(" ");
    crate::dsl::a_name_and_the_rest(st, word, phrase);
    text::lemma_lines_one(phrase);
    assert(action_text(CmdV::Agent { profile: word, task: phrase }) + end =~= seq!['A', ' '] + (word
        + seq![' '] + phrase) + end);
    assert(action_text(CmdV::PlanStep { id: word, status: phrase }) + end =~= seq!['P', ' '] + (word
        + seq![' '] + phrase) + end);
}

/// What the ledger says of an edit, an insertion or a new file names the target
/// and counts the lines that came.
pub proof fn edits_are_counted_in_the_ledger(
    target: Seq<char>,
    a: usize,
    b: usize,
    body: Seq<Seq<char>>,
)
    requires
        body.len() > 0,
        body.last().len() > 0,
        forall|i: int| 0 <= i < body.len() ==> text::plain_line(#[trigger] body[i]),
    ensures
        ({
            let text = joined(body, "\n"@);
            let count = " (+"@ + decimal(body.len()) + " lines)"@;
            &&& action_text(CmdV::Edit { target, a, b, body: text }) == "E "@ + target + " "@
                + decimal(a as nat) + ":"@ + decimal(b as nat) + count
            &&& action_text(CmdV::Insert { target, after: a, body: text }) == "I "@ + target + " "@
                + decimal(a as nat) + count
            &&& action_text(CmdV::New { path: target, body: text }) == "N "@ + target + count
        }),
{
    text::open_lines_read_back(body);
    let text = joined(body, "\n"@);
    let count = " (+"@ + decimal(body.len()) + " lines)"@;
    assert(action_text(CmdV::Edit { target, a, b, body: text }) =~= "E "@ + target + " "@ + decimal(
        a as nat,
    ) + ":"@ + decimal(b as nat) + count);
    assert(action_text(CmdV::Insert { target, after: a, body: text }) =~= "I "@ + target + " "@
        + decimal(a as nat) + count);
    assert(action_text(CmdV::New { path: target, body: text }) =~= "N "@ + target + count);
}

proof fn lemma_done_at(v: Seq<CmdV>, rest: Seq<CmdV>, msg: Seq<char>, i: int)
    requires
        0 <= i <= v.len(),
        forall|k: int| 0 <= k < v.len() ==> !(#[trigger] v[k] is Done),
    ensures
        done_at(v + seq![CmdV::Done { msg }] + rest, i) == Some(v.len() as int),
        done_at(v, i) is None,
    decreases v.len() - i,
{
    let all = v + seq![CmdV::Done { msg }] + rest;
    if i < v.len() {
        lemma_done_at(v, rest, msg, i + 1);
        assert(all[i] == v[i]);
        assert(!(v[i] is Done));
    } else {
        assert(all[i] == CmdV::Done { msg });
    }
}

/// A D whose message goes on with a command did not mean to end the run: its
/// first line becomes talk, and the command runs in its place. A D of one line
/// stands as it is, and so do all other commands.
pub proof fn work_behind_a_d_is_rescued(
    cfg: Config,
    v: Seq<CmdV>,
    rest: Seq<CmdV>,
    talk: Seq<char>,
    line: Seq<char>,
)
    requires
        forall|k: int| 0 <= k < v.len() ==> !(#[trigger] v[k] is Done),
        is_phrase(talk),
        is_phrase(line),
        line != seq!['<', '<'],
    ensures
        rescued(
            cfg,
            v + seq![CmdV::Done { msg: talk + seq!['\n'] + (seq!['X', ' '] + line) }] + rest,
        ) == v + seq![CmdV::Say { text: talk }, CmdV::Exec { line }] + rest,
        rescued(cfg, v + seq![CmdV::Done { msg: talk }] + rest) == v + seq![
            CmdV::Done { msg: talk },
        ] + rest,
        rescued(cfg, v) == v,
{
    let run = seq!['X', ' '] + line;
    let msg = talk + seq!['\n'] + run;
    let all = v + seq![CmdV::Done { msg }] + rest;
    lemma_done_at(v, rest, msg, 0);
    lemma_done_at(v, rest, talk, 0);
    assert(all[v.len() as int] == CmdV::Done { msg });
    reveal_strlit("\n");
    assert("\n"@ =~= seq!['\n']);
    text::lemma_lines_cons(talk, run);
    assert(!run.contains('\n')) by {
        assert forall|i: int| 0 <= i < run.len() implies run[i] != '\n' by {
            if i >= 2 {
                assert(run[i] == line[i - 2]);
            }
        }
    }
    text::lemma_lines_one(run);
    text::lemma_lines_one(talk);
    let lines = lines_of(msg);
    assert(lines =~= seq![talk, run]);
    assert(lines.drop_first() =~= seq![run]);
    assert(after_first_line(msg) == run);
    assert(trimmed(talk) == talk) by {
        assert(talk.skip(0) =~= talk);
        assert(talk.take(talk.len() as int) =~= talk);
    }
    assert(trimmed(run) == run) by {
        assert(run[0] == 'X');
        assert(run.last() == line.last());
        assert(run.skip(0) =~= run);
        assert(run.take(run.len() as int) =~= run);
    }
    crate::dsl::what_runs_and_what_is_said(fresh(false), line, Seq::empty());
    assert(run + "\n"@ =~= seq!['X', ' '] + line + seq!['\n']);
    let found = commands_in(run + "\n"@);
    assert(lexed_end(fresh(false)).1 =~= Seq::<CmdV>::empty());
    assert(found =~= seq![CmdV::Exec { line }]);
    reveal_with_fuel(runnable_of, 2);
    assert(runnable_of(cfg, found, 1) =~= found);
    assert(all.take(v.len() as int) =~= v);
    assert(all.skip(v.len() + 1int) =~= rest);
    assert(seq![CmdV::Say { text: talk }] + found =~= seq![
        CmdV::Say { text: talk },
        CmdV::Exec { line },
    ]);
    let one = v + seq![CmdV::Done { msg: talk }] + rest;
    assert(one[v.len() as int] == CmdV::Done { msg: talk });
    assert(lines_of(talk).drop_first() =~= Seq::<Seq<char>>::empty());
    assert(trimmed(Seq::<char>::empty()) =~= Seq::<char>::empty());
}

proof fn lemma_real_lines(rows: Seq<Seq<char>>, more: Seq<Seq<char>>, i: int)
    requires
        0 <= i <= rows.len(),
        forall|k: int| 0 <= k < rows.len() ==> !is_scaffold(#[trigger] rows[k]),
        more.len() > 0 ==> is_scaffold(more[0]),
    ensures
        real_lines(rows + more, i) == rows.len(),
    decreases rows.len() - i,
{
    let all = rows + more;
    if i < rows.len() {
        assert(all[i] == rows[i]);
        lemma_real_lines(rows, more, i + 1);
    } else if more.len() > 0 {
        assert(all[i] == more[0]);
    }
}

/// A final message ends at the first line of scaffolding: whatever follows such a
/// line is cut, and what comes before it stays.
pub proof fn scaffolding_is_cut(rows: Seq<Seq<char>>, mark: Seq<char>, more: Seq<char>)
    requires
        rows.len() > 0,
        forall|k: int|
            0 <= k < rows.len() ==> text::plain_line(#[trigger] rows[k]) && !is_scaffold(rows[k]),
        rows.last().len() > 0,
        mark == "## TASK"@ || mark == "## LOG"@ || mark == "## NOW"@ || mark == "files: #"@ || mark
            == "<|"@ || mark == "<invoke"@ || mark == "</invoke"@ || mark == "<function_"@ || mark
            == "</function"@ || mark == "[TOOL_CALLS]"@,
        text::plain_line(mark + more),
    ensures
        cleaned(joined(rows, "\n"@) + "\n"@ + mark + more) == trimmed(joined(rows, "\n"@)),
        cleaned(joined(rows, "\n"@)) == trimmed(joined(rows, "\n"@)),
{
    let line = mark + more;
    let all = rows.push(line);
    assert(all.drop_last() =~= rows);
    assert(joined(all, "\n"@) =~= joined(rows, "\n"@) + "\n"@ + mark + more);
    lemma_marks(mark);
    assert(line[0] == mark[0]);
    assert(trimmed_start(line) =~= line);
    assert(line.subrange(0, mark.len() as int) =~= mark);
    assert(begins(line, mark));
    assert forall|i: int| 0 <= i < all.len() implies text::plain_line(#[trigger] all[i]) by {
        if i < rows.len() {
            assert(all[i] == rows[i]);
        }
    }
    text::open_lines_read_back(all);
    text::open_lines_read_back(rows);
    lemma_real_lines(rows, seq![line], 0);
    lemma_real_lines(rows, Seq::empty(), 0);
    assert(rows + seq![line] =~= all);
    assert(rows + Seq::<Seq<char>>::empty() =~= rows);
    assert(all.take(rows.len() as int) =~= rows);
    assert(rows.take(rows.len() as int) =~= rows);
}

proof fn lemma_marks(mark: Seq<char>)
    requires
        mark == "## TASK"@ || mark == "## LOG"@ || mark == "## NOW"@ || mark == "files: #"@ || mark
            == "<|"@ || mark == "<invoke"@ || mark == "</invoke"@ || mark == "<function_"@ || mark
            == "</function"@ || mark == "[TOOL_CALLS]"@,
    ensures
        mark.len() > 0,
        !text::is_space(mark[0]),
{
    reveal_strlit("## TASK");
    reveal_strlit("## LOG");
    reveal_strlit("## NOW");
    reveal_strlit("files: #");
    reveal_strlit("<|");
    reveal_strlit("<invoke");
    reveal_strlit("</invoke");
    reveal_strlit("<function_");
    reveal_strlit("</function");
    reveal_strlit("[TOOL_CALLS]");
}

/// Ordinary lines are no scaffolding: a line whose first character is no sign of
/// markup is kept.
pub proof fn ordinary_lines_are_kept(line: Seq<char>)
    requires
        trimmed_start(line).len() > 0,
        trimmed_start(line)[0] != '#',
        trimmed_start(line)[0] != '<',
        trimmed_start(line)[0] != '[',
        trimmed_start(line)[0] != 'f',
    ensures
        !is_scaffold(line),
{
    reveal_strlit("## TASK");
    reveal_strlit("## LOG");
    reveal_strlit("## NOW");
    reveal_strlit("files: #");
    reveal_strlit("<|");
    reveal_strlit("<invoke");
    reveal_strlit("</invoke");
    reveal_strlit("<function_");
    reveal_strlit("</function");
    reveal_strlit("[TOOL_CALLS]");
    let t = trimmed_start(line);
    lemma_other_start(t, "## TASK"@);
    lemma_other_start(t, "## LOG"@);
    lemma_other_start(t, "## NOW"@);
    lemma_other_start(t, "files: #"@);
    lemma_other_start(t, "<|"@);
    lemma_other_start(t, "<invoke"@);
    lemma_other_start(t, "</invoke"@);
    lemma_other_start(t, "<function_"@);
    lemma_other_start(t, "</function"@);
    lemma_other_start(t, "[TOOL_CALLS]"@);
}

proof fn lemma_other_start(s: Seq<char>, p: Seq<char>)
    requires
        s.len() > 0,
        p.len() > 0,
        s[0] != p[0],
    ensures
        !begins(s, p),
{
    if begins(s, p) {
        assert(s.subrange(0, p.len() as int)[0] == s[0]);
    }
}

/// A note is recorded word for word, as a result of its turn, and shown; several
/// notes are recorded in order. Nothing that was there changes.
pub proof fn notes_are_recorded(log: LogV, turn: u32, notes: Seq<Seq<char>>, k: int)
    requires
        0 <= k < notes.len(),
    ensures
        noted_all(log, turn, notes).entries.len() == log.entries.len() + notes.len(),
        noted_all(log, turn, notes).entries.take(log.entries.len() as int) == log.entries,
        noted_all(log, turn, notes).entries[log.entries.len() + k].text == notes[k],
        noted_all(log, turn, notes).entries[log.entries.len() + k].kind == Kind::Result,
        noted_all(log, turn, notes).entries[log.entries.len() + k].turn == turn,
    decreases notes.len(),
{
    let before = notes.drop_last();
    let now = noted_all(log, turn, notes).entries;
    let was = noted_all(log, turn, before).entries;
    if before.len() > 0 {
        notes_are_recorded(
            log,
            turn,
            before,
            if k < before.len() {
                k
            } else {
                0
            },
        );
        assert(now.take(log.entries.len() as int) =~= was.take(log.entries.len() as int));
    } else {
        assert(now.take(log.entries.len() as int) =~= log.entries);
    }
    if k < before.len() {
        assert(before[k] == notes[k]);
        assert(now[log.entries.len() + k] == was[log.entries.len() + k]);
    }
}

/// What a subagent does is shown under its name, and its turn counter is not
/// shown at all; without a name every event is shown as it is.
pub proof fn subagents_show_under_their_name(name: Seq<char>, ev: EvV, depth: u8, t: Seq<char>)
    requires
        depth > 0,
    ensures
        routed(None, ev) == Some(ev),
        routed(Some(name), EvV::Action(depth, t)) == Some(EvV::Sub(name, t)),
        routed(Some(name), EvV::Result(depth, t)) == Some(EvV::Sub(name, t)),
        routed(Some(name), EvV::Turn(0)) is None,
{
}

/// A long output is distilled by a prompt in which the task and the output stand
/// in their places; a short one is not worth a call. What comes back is kept
/// whole, under a line that says how long the output was; where the call failed
/// the ends of the output are kept.
pub proof fn distilling_keeps_the_answer(
    cfg: Config,
    task: Seq<char>,
    text: Seq<char>,
    answer: Seq<char>,
)
    ensures
        distill_prompt_of(cfg, task, text) is None <==> byte_len(text) < 600,
        begins(
            distilled_text(text, Some(answer)),
            "(distilled from "@ + decimal(byte_len(text)) + " chars)\n"@,
        ),
        text::ends(distilled_text(text, Some(answer)), trimmed(answer)),
        distilled_text(text, None) == crate::tools::head_and_tail(text, 30, 10),
{
    let t = distilled_text(text, Some(answer));
    let head = "(distilled from "@ + decimal(byte_len(text)) + " chars)\n"@;
    let end = trimmed(answer);
    assert(t.subrange(0, head.len() as int) =~= head);
    assert(t.subrange(t.len() - end.len(), t.len() as int) =~= end);
    crate::tools::the_ends_are_chosen(30, 10, text);
    reveal_strlit("head_tail:30,10");
    reveal_strlit("head_tail:");
    reveal_strlit(",");
    reveal_with_fuel(text::decimal, 3);
    assert(decimal(30) =~= seq!['3', '0']);
    assert(decimal(10) =~= seq!['1', '0']);
    assert("head_tail:30,10"@ =~= "head_tail:"@ + decimal(30) + ","@ + decimal(10));
}

proof fn lemma_held(a: Seq<char>, b: Seq<char>, c: Seq<char>)
    ensures
        text::holds(a + b + c, b),
{
    let s = a + b + c;
    text::found_where_it_first_stands(s, b, 0);
    assert(s.skip(a.len() as int).take(b.len() as int) =~= b);
}

/// The prompt tells of every command that is allowed, with its own lines; `S` and `D`
/// are always told, a subagent's where there are profiles, and deliberation where the
/// model has it on request.
pub proof fn the_prompt_tells_the_commands(cfg: Config, allowed: Option<Seq<char>>)
    ensures
        allows(allowed, 'R') ==> text::holds(reference(cfg, allowed), HELP_R@),
        allows(allowed, 'E') ==> text::holds(reference(cfg, allowed), HELP_E@),
        allows(allowed, 'I') ==> text::holds(reference(cfg, allowed), HELP_I@),
        allows(allowed, 'N') ==> text::holds(reference(cfg, allowed), HELP_N@),
        allows(allowed, 'G') ==> text::holds(reference(cfg, allowed), HELP_G@),
        allows(allowed, 'O') ==> text::holds(reference(cfg, allowed), HELP_O@),
        allows(allowed, 'X') ==> text::holds(reference(cfg, allowed), HELP_X@),
        allows(allowed, 'V') ==> text::holds(reference(cfg, allowed), HELP_V@),
        allows(allowed, 'P') ==> text::holds(reference(cfg, allowed), HELP_P@),
        allows(allowed, 'A') && cfg.profile@.len() > 0 ==> text::holds(
            reference(cfg, allowed),
            HELP_A@ + joined(keys_in(cfg.profile@), ", "@) + "\n"@,
        ),
        think_on(cfg, "request"@) ==> text::holds(reference(cfg, allowed), HELP_B@),
        text::ends(reference(cfg, allowed), HELP_S@ + HELP_D@),
{
    let p0 = "Commands (one per line):\n"@;
    let r = when(allows(allowed, 'R'), HELP_R@);
    let e = when(allows(allowed, 'E'), HELP_E@);
    let i = when(allows(allowed, 'I'), HELP_I@);
    let n = when(allows(allowed, 'N'), HELP_N@);
    let g = when(allows(allowed, 'G'), HELP_G@);
    let o = when(allows(allowed, 'O'), HELP_O@);
    let x = when(allows(allowed, 'X'), HELP_X@);
    let v = when(allows(allowed, 'V'), HELP_V@);
    let a = when(
        allows(allowed, 'A') && cfg.profile@.len() > 0,
        HELP_A@ + joined(keys_in(cfg.profile@), ", "@) + "\n"@,
    );
    let t = tool_rows(cfg.tool@, allowed, cfg.tool@.len() as int);
    let p = when(allows(allowed, 'P'), HELP_P@);
    let b = when(think_on(cfg, "request"@), HELP_B@);
    let s = HELP_S@;
    let d = HELP_D@;
    let s1 = p0 + r;
    let s2 = s1 + e;
    let s3 = s2 + i;
    let s4 = s3 + n;
    let s5 = s4 + g;
    let s6 = s5 + o;
    let s7 = s6 + x;
    let s8 = s7 + v;
    let s9 = s8 + a;
    let s10 = s9 + t;
    let s11 = s10 + p;
    let s12 = s11 + b;
    assert(reference(cfg, allowed) == s12 + s + d);
    lemma_growing(p0, r);
    lemma_growing(s1, e);
    lemma_growing(s2, i);
    lemma_growing(s3, n);
    lemma_growing(s4, g);
    lemma_growing(s5, o);
    lemma_growing(s6, x);
    lemma_growing(s7, v);
    lemma_growing(s8, a);
    lemma_growing(s9, t);
    lemma_growing(s10, p);
    lemma_growing(s11, b);
    lemma_growing(s12, s);
    lemma_growing(s12 + s, d);
    lemma_ending(s12, s, d);
}

proof fn lemma_growing(s: Seq<char>, c: Seq<char>)
    ensures
        text::holds(s + c, c),
        forall|p: Seq<char>| #[trigger] text::holds(s, p) ==> text::holds(s + c, p),
{
    let none = Seq::<char>::empty();
    lemma_held(s, c, none);
    assert(s + c + none =~= s + c);
    assert forall|p: Seq<char>| #[trigger] text::holds(s, p) implies text::holds(s + c, p) by {
        text::found_where_it_first_stands(s, p, 0);
        let k = text::found_from(s, p, 0)->0;
        text::found_where_it_first_stands(s + c, p, 0);
        assert((s + c).skip(k).take(p.len() as int) =~= s.skip(k).take(p.len() as int));
    }
}

proof fn lemma_ending(a: Seq<char>, b: Seq<char>, c: Seq<char>)
    ensures
        text::ends(a + b + c, b + c),
{
    let s = a + b + c;
    let end = b + c;
    assert(s.subrange(s.len() - end.len(), s.len() as int) =~= end);
}

/// A command that is not allowed is not told: without any, the prompt has its first
/// line, then what is always told.
pub proof fn commands_not_allowed_are_not_told(cfg: Config)
    requires
        cfg.tool@.len() == 0,
        !think_on(cfg, "request"@),
    ensures
        reference(cfg, Some(Seq::empty())) == "Commands (one per line):\n"@ + HELP_S@ + HELP_D@,
{
    let none = Some(Seq::<char>::empty());
    assert(!allows(none, 'R') && !allows(none, 'E') && !allows(none, 'I') && !allows(none, 'N')
        && !allows(none, 'G') && !allows(none, 'O') && !allows(none, 'X') && !allows(none, 'V')
        && !allows(none, 'A') && !allows(none, 'P'));
    assert(reference(cfg, none) =~= "Commands (one per line):\n"@ + HELP_S@ + HELP_D@);
}

/// Every configured tool whose verb is allowed is told, and no other.
pub proof fn allowed_tools_are_told(
    rows: Seq<(Seq<char>, ToolCfg)>,
    allowed: Option<Seq<char>>,
    n: int,
    i: int,
)
    requires
        0 <= i < n <= rows.len(),
        rows[i].0.len() > 0,
        allows(allowed, rows[i].0[0]),
    ensures
        text::holds(tool_rows(rows, allowed, n), tool_row(rows[i].0, rows[i].1)),
    decreases n,
{
    let before = tool_rows(rows, allowed, n - 1);
    let (verb, t) = rows[n - 1];
    let last = when(verb.len() > 0 && allows(allowed, verb[0]), tool_row(verb, t));
    let none = Seq::<char>::empty();
    let all = tool_rows(rows, allowed, n);
    assert(all == before + last);
    if i == n - 1 {
        lemma_held(before, last, none);
        assert(before + last + none =~= all);
    } else {
        allowed_tools_are_told(rows, allowed, n - 1, i);
        let row = tool_row(rows[i].0, rows[i].1);
        text::found_where_it_first_stands(before, row, 0);
        let k = text::found_from(before, row, 0)->0;
        text::found_where_it_first_stands(all, row, 0);
        assert(all.skip(k).take(row.len() as int) =~= before.skip(k).take(row.len() as int));
    }
}

/// The prompt starts with who the agent is: the configured words where there are any,
/// else the built-in ones. A profile's words follow, and then the commands and the
/// rules.
pub proof fn the_prompt_starts_with_who_it_is(cfg: Config, p: Seq<char>, allowed: Option<Seq<char>>)
    ensures
        cfg.prompt.system is None ==> text::begins(system_text(cfg, None, allowed), IDENTITY@),
        cfg.prompt.system is Some ==> text::begins(
            system_text(cfg, None, allowed),
            trimmed_end(cfg.prompt.system->0@) + seq!['\n'],
        ),
        text::holds(system_text(cfg, Some(p), allowed), p),
        text::ends(system_text(cfg, None, allowed), reference(cfg, allowed) + rules(cfg)),
        text::ends(system_text(cfg, Some(p), allowed), SUBAGENT@ + reference(cfg, allowed) + rules(cfg)),
{
    reveal_strlit("\n");
    assert("\n"@ =~= seq!['\n']);
    lemma_prompt(identity(cfg), p, SUBAGENT@, reference(cfg, allowed), rules(cfg));
}

proof fn lemma_prompt(id: Seq<char>, p: Seq<char>, sub: Seq<char>, r: Seq<char>, u: Seq<char>)
    ensures
        ({
            let a = id + Seq::<char>::empty() + r + u;
            let b = id + (p + "\n"@ + sub) + r + u;
            &&& text::begins(a, id)
            &&& text::ends(a, r + u)
            &&& text::holds(b, p)
            &&& text::ends(b, sub + r + u)
        }),
{
    let rest = r + u;
    let a = id + Seq::<char>::empty() + r + u;
    assert(a =~= id + rest);
    assert(a.subrange(0, id.len() as int) =~= id);
    assert(a.subrange(a.len() - rest.len(), a.len() as int) =~= rest);
    let b = id + (p + "\n"@ + sub) + r + u;
    lemma_held(id, p, "\n"@ + sub + rest);
    assert(b =~= id + p + ("\n"@ + sub + rest));
    let tail = sub + r + u;
    assert(b =~= id + p + "\n"@ + tail);
    assert(b.subrange(b.len() - tail.len(), b.len() as int) =~= tail);
}

/// The rules say which check runs by itself, name the plan's file, and carry what the
/// config and the mods add.
pub proof fn the_rules_name_check_and_plan(cfg: Config)
    ensures
        cfg.verify.cmd is Some ==> text::holds(rules(cfg), cfg.verify.cmd->0@),
        text::holds(rules(cfg), cfg.plan.file@),
        text::holds(rules(cfg), cfg.prompt_extra@),
        text::holds(rules(cfg), trimmed(cfg.prompt.extra@)),
        text::begins(rules(cfg), RULES_TEXT@),
{
    let extra = trimmed(cfg.prompt.extra@);
    let own = when(extra.len() > 0, extra + "\n"@);
    let check = match cfg.verify.cmd {
        Some(v) => "After any turn where you edit files, `"@ + v@
            + "` runs AUTOMATICALLY and its result is shown — never run it yourself.\n"@,
        None => Seq::empty(),
    };
    let plan = "Plan: create "@ + cfg.plan.file@ + PLAN_HELP@;
    let whole = rules(cfg);
    let start = RULES_TEXT@ + cfg.prompt_extra@;
    assert(whole =~= start + own + check + plan);
    lemma_held(RULES_TEXT@, cfg.prompt_extra@, own + check + plan);
    assert(whole =~= RULES_TEXT@ + cfg.prompt_extra@ + (own + check + plan));
    lemma_held(start + own + check + "Plan: create "@, cfg.plan.file@, PLAN_HELP@);
    assert(whole =~= start + own + check + "Plan: create "@ + cfg.plan.file@ + PLAN_HELP@);
    if extra.len() > 0 {
        lemma_held(start, extra, "\n"@ + check + plan);
        assert(whole =~= start + extra + ("\n"@ + check + plan));
    } else {
        lemma_held(start, extra, check + plan);
        assert(whole =~= start + extra + (check + plan));
    }
    match cfg.verify.cmd {
        Some(v) => {
            let a = "After any turn where you edit files, `"@;
            let c = "` runs AUTOMATICALLY and its result is shown — never run it yourself.\n"@;
            lemma_held(start + own + a, v@, c + plan);
            assert(whole =~= start + own + a + v@ + (c + plan));
        },
        None => {},
    }
    assert(whole.subrange(0, RULES_TEXT@.len() as int) =~= RULES_TEXT@);
}

/// The first lines of a text are shown on one line, with bars between them; no more
/// of them than asked for, and all where there are no more.
pub proof fn first_lines_are_shown_with_bars(v: Seq<Seq<char>>, n: int)
    requires
        v.len() > 0,
        v.last().len() > 0,
        forall|i: int| 0 <= i < v.len() ==> text::plain_line(#[trigger] v[i]),
        n >= 0,
    ensures
        n < v.len() ==> first_lines_of(joined(v, "\n"@), n) == joined(v.take(n), " | "@),
        n >= v.len() ==> first_lines_of(joined(v, "\n"@), n) == joined(v, " | "@),
{
    text::open_lines_read_back(v);
    assert(v.take(v.len() as int) =~= v);
}

/// A result within its cap stands as it is; a longer one is clipped and says so.
pub proof fn capping_is_said(s: Seq<char>, max: int)
    ensures
        byte_len(s) <= max ==> capped(s, max) == s,
        byte_len(s) > max ==> text::begins(capped(s, max), clipped(s, max)) && text::ends(
            capped(s, max),
            "(result capped)"@,
        ),
{
    if byte_len(s) > max {
        reveal_strlit("\n…(result capped)");
        reveal_strlit("(result capped)");
        let c = clipped(s, max);
        let all = capped(s, max);
        assert(all.subrange(0, c.len() as int) =~= c);
        assert(all.subrange(all.len() - 15, all.len() as int) =~= "(result capped)"@);
    }
}

/// What is noted shows whole up to 400 bytes, and clipped to that from there on; the
/// ledger has all of it.
pub proof fn notes_show_clipped(log: LogV, turn: u32, t: Seq<char>)
    requires
        log.tag is None,
    ensures
        noted(log, turn, t).events.len() == log.events.len() + 1,
        byte_len(t) <= 400 ==> noted(log, turn, t).events.last() == EvV::Result(log.depth, t),
        byte_len(t) > 400 ==> noted(log, turn, t).events.last() == EvV::Result(
            log.depth,
            clipped(t, 400),
        ),
        noted(log, turn, t).entries.last().text == t,
{
}

/// A run starts with nothing counted and nothing said.
pub proof fn a_run_starts_from_nothing()
    ensures
        blank_report().final_msg.len() == 0,
        blank_report().turns == 0,
        blank_report().commands == 0,
        blank_report().seals == 0,
        blank_report().tok_in == 0,
        blank_report().tok_out == 0,
        blank_report().tok_cached == 0,
        blank_report().sent_tokens == 0,
        blank_report().out_chars == 0,
        blank_report().model_ms == 0,
        blank_report().wall_ms == 0,
        blank_report().tool_ms == 0,
        !blank_report().cached_reported,
{
    reveal_strlit("");
}

} // verus!
