//! swift — hyper-light fleet manager for haste agents.
//!
//! A fleet is a list of named agents. Each agent has a workspace root and an
//! inbox directory (`<root>/.swift/inbox/`); any text file dropped there is a
//! task. Persistent agents keep one session across tasks; one-shot agents get
//! a fresh session per task. swift only routes work and multiplexes events:
//! which task comes next, which lines of a feeder are new, and what its pages
//! show is decided here.

use crate::agent::Ev;
use crate::agent::EvV;
use crate::ledger;
use crate::ledger::hash_of;
use crate::screen;
use crate::screen::first_chars;
use crate::screen::last_chars;
use crate::screen::padded;
use crate::screen::placed;
use crate::screen::run_of;
use crate::screen::stacked;
use crate::screen::styled;
use crate::screen::visible;
use crate::screen::Placed;
use crate::screen::Style;
use crate::table;
use crate::table::sorted_of;
use crate::text;
use crate::text::begins;
use crate::text::decimal;
use crate::text::first_line;
use crate::text::is_digit;
use crate::text::is_space;
use crate::text::joined;
use crate::text::lines_of;
use crate::text::opt_text;
use crate::text::parsed_upto;
use crate::text::stripped;
use crate::text::texts;
use crate::text::trimmed;
use crate::tools::after_last;
use crate::tools::last_after;
use std::collections::HashSet;
use vstd::prelude::*;

verus! {

broadcast use vstd::std_specs::hash::group_hash_axioms;

// ---------------------------------------------------------------------------
// Agents
// ---------------------------------------------------------------------------

/// An agent of a fleet.
#[derive(Clone)]
pub struct AgentCfg {
    /// Workspace root; the inbox lives at <root>/.swift/inbox/.
    pub root: String,
    /// Keep one session across tasks (memory) instead of fresh-per-task.
    pub persistent: bool,
    /// haste profile to run under (defaults to the leader defaults).
    pub profile: Option<String>,
    /// Explicit haste config path (default: the root's own lookup chain).
    pub config: Option<String>,
    /// Task feeder: a shell command polled every `interval_s`; every output
    /// line never seen before becomes one task.
    pub source: Option<String>,
    pub interval_s: u64,
    /// One-shot agents: tasks that may run at once (persistent is always 1 —
    /// one session, one timeline).
    pub parallel: usize,
}

/// How often a feeder is polled, in seconds, where nothing else is said.
pub const INTERVAL_S: u64 = 60;

/// How many tasks run at once, where nothing else is said.
pub const PARALLEL: usize = 1;

/// The line that announces an agent.
pub open spec fn announced(name: Seq<char>, a: AgentCfg) -> Seq<char> {
    "swift: "@ + (if a.persistent {
        "persistent"@
    } else {
        "one-shot "@
    }) + " "@ + name + " @ "@ + a.root@ + (match a.source {
        Some(s) => " ← `"@ + s@ + "`"@,
        None => ""@,
    })
}

pub fn announce(name: &str, a: &AgentCfg) -> (r: String)
    ensures
        r@ == announced(name@, *a),
{
    let mut t = "swift: ".to_string();
    t.append(
        if a.persistent {
            "persistent"
        } else {
            "one-shot "
        },
    );
    t.append(" ");
    t.append(name);
    t.append(" @ ");
    t.append(&a.root);
    let mut feeder = "".to_string();
    if let Some(s) = &a.source {
        feeder = " ← `".to_string();
        feeder.append(s);
        feeder.append("`");
    }
    t.append(&feeder);
    t
}

/// Whether an agent takes another task now. A persistent one runs its tasks in
/// sequence; a one-shot one has a limit, which is never below one.
pub fn takes_task(a: &AgentCfg, running: usize) -> (r: bool)
    ensures
        r == (a.persistent || running < a.parallel || running < 1),
{
    a.persistent || running < a.parallel || running < 1
}

/// Whether a feeder is due: never polled, or not since `interval_s` seconds.
pub fn poll_due(a: &AgentCfg, since_s: Option<u64>) -> (r: bool)
    ensures
        r == (a.source is Some && (since_s is None || since_s->0 >= a.interval_s)),
{
    a.source.is_some() && match since_s {
        None => true,
        Some(s) => s >= a.interval_s,
    }
}

// ---------------------------------------------------------------------------
// The command line
// ---------------------------------------------------------------------------

/// What a command line asks for.
pub enum Command {
    /// Drop a task into an agent's inbox.
    Send { agent: String, task: String },
    /// Run a fleet.
    Run { path: String },
    Usage,
}

/// What a command line asks for.
pub fn parse(args: &Vec<String>) -> (r: Command)
    requires
        args@.len() == 1 ==> args@[0]@ != "send"@,
    ensures
        ({
            let a = texts(args@);
            if a.len() == 0 {
                r is Usage
            } else if a[0] == "send"@ {
                let task = joined(a.subrange(2, a.len() as int), " "@);
                if trimmed(task).len() == 0 {
                    r is Usage
                } else {
                    r is Send && r->agent@ == a[1] && r->task@ == task
                }
            } else if text::ends(a[0], ".toml"@) {
                r is Run && r->path@ == a[0]
            } else {
                r is Usage
            }
        }),
{
    if args.len() == 0 {
        return Command::Usage;
    }
    assert(texts(args@)[0] == args@[0]@);
    if text::same(&args[0], "send") {
        let task = text::join_range(args, 2, args.len(), " ");
        if text::empty(&text::trim(&task)) {
            return Command::Usage;
        }
        return Command::Send { agent: args[1].clone(), task };
    }
    if text::ends_with(&args[0], ".toml") {
        return Command::Run { path: args[0].clone() };
    }
    Command::Usage
}

// ---------------------------------------------------------------------------
// The inbox
// ---------------------------------------------------------------------------

/// Whether a file is a task, by its extension.
pub open spec fn is_task(name: Seq<char>) -> bool {
    let dot = last_after(name, '.', name.len() as int);
    dot > 1 && name.skip(dot) == "task"@
}

/// The tasks among the first `n` files.
pub open spec fn tasks_in(names: Seq<Seq<char>>, n: int) -> Seq<Seq<char>>
    decreases n,
{
    if n <= 0 {
        Seq::empty()
    } else if is_task(names[n - 1]) {
        tasks_in(names, n - 1).push(names[n - 1])
    } else {
        tasks_in(names, n - 1)
    }
}

/// The oldest task: the first by name, since names start with the time.
pub open spec fn oldest(names: Seq<Seq<char>>) -> Option<Seq<char>> {
    let tasks = sorted_of(tasks_in(names, names.len() as int));
    if tasks.len() > 0 {
        Some(tasks[0])
    } else {
        None
    }
}

fn names_task(name: &str) -> (r: bool)
    ensures
        r == is_task(name@),
{
    let v = text::chars_of(name);
    let dot = after_last(&v, '.');
    if dot <= 1 {
        return false;
    }
    assert(v@.subrange(dot as int, v@.len() as int) =~= name@.skip(dot as int));
    text::same(&text::text_between(&v, dot, v.len()), "task")
}

/// The task file that comes next.
pub fn next_task(names: &Vec<String>) -> (r: Option<String>)
    ensures
        opt_text(r) == oldest(texts(names@)),
{
    let ghost all = texts(names@);
    let mut tasks: Vec<String> = Vec::new();
    let mut i: usize = 0;
    assert(texts(tasks@) =~= Seq::<Seq<char>>::empty());
    while i < names.len()
        invariant
            i <= names@.len(),
            all == texts(names@),
            texts(tasks@) == tasks_in(all, i as int),
        decreases names@.len() - i,
    {
        assert(all[i as int] == names@[i as int]@);
        if names_task(&names[i]) {
            let t = names[i].clone();
            proof {
                text::lemma_texts_push(tasks@, t);
            }
            tasks.push(t);
        }
        i = i + 1;
    }
    assert(all.len() == names@.len());
    let sorted = table::sort(&tasks);
    assert(texts(sorted@).len() == sorted@.len());
    if sorted.len() > 0 {
        assert(texts(sorted@)[0] == sorted@[0]@);
        Some(sorted[0].clone())
    } else {
        None
    }
}

/// The name of a task file that has been claimed: it is renamed before it is
/// read, so that no other reader takes it.
pub fn claimed_name(name: &str) -> (r: String)
    ensures
        r@ == name@ + ".claimed"@,
{
    let mut t = name.to_owned();
    t.append(".claimed");
    t
}

/// The name of a new task file, timestamp first so the queue stays ordered.
pub fn task_name(stamp_ms: u128, pid: u32) -> (r: String)
    ensures
        r@ == decimal(stamp_ms as nat) + "-"@ + decimal(pid as nat) + ".task"@,
{
    let mut t = text::dec_u128(stamp_ms);
    t.append("-");
    let p = text::dec(pid as u64);
    t.append(&p);
    t.append(".task");
    t
}

/// The task that a file holds, if it holds any.
pub fn task_text(body: &str) -> (r: Option<String>)
    ensures
        opt_text(r) == (if trimmed(body@).len() == 0 {
            None
        } else {
            Some(trimmed(body@))
        }),
{
    let t = text::trim(body);
    if text::empty(&t) {
        None
    } else {
        Some(t)
    }
}

// ---------------------------------------------------------------------------
// Feeders
// ---------------------------------------------------------------------------

/// The hashes in the first `n` lines of a record.
pub open spec fn seen_upto(lines: Seq<Seq<char>>, n: int) -> Set<u64>
    decreases n,
{
    if n <= 0 {
        Set::empty()
    } else {
        match parsed_upto(trimmed(lines[n - 1]), u64::MAX as nat) {
            Some(h) => seen_upto(lines, n - 1).insert(h as u64),
            None => seen_upto(lines, n - 1),
        }
    }
}

/// The hashes in a record of seen lines.
pub open spec fn seen_in(record: Seq<char>) -> Set<u64> {
    seen_upto(lines_of(record), lines_of(record).len() as int)
}

/// Those of the first `n` lines that are new, and what is seen then.
pub open spec fn fresh_upto(lines: Seq<Seq<char>>, seen: Set<u64>, n: int) -> (
    Seq<Seq<char>>,
    Set<u64>,
)
    decreases n,
{
    if n <= 0 {
        (Seq::empty(), seen)
    } else {
        let (fresh, known) = fresh_upto(lines, seen, n - 1);
        let line = trimmed(lines[n - 1]);
        if line.len() > 0 && !known.contains(hash_of(line)) {
            (fresh.push(line), known.insert(hash_of(line)))
        } else {
            (fresh, known)
        }
    }
}

/// What is recorded of new lines: the hash of each, on a line of its own.
pub open spec fn recorded_text(fresh: Seq<Seq<char>>) -> Seq<char>
    decreases fresh.len(),
{
    if fresh.len() == 0 {
        ""@
    } else {
        recorded_text(fresh.drop_last()) + decimal(hash_of(fresh.last()) as nat) + "\n"@
    }
}

/// The new lines of a feeder, given what its command printed; nothing where
/// the command failed.
pub open spec fn fresh_lines(out: Seq<char>, record: Seq<char>) -> Seq<Seq<char>> {
    match stripped(out, "ok"@) {
        Some(body) => fresh_upto(
            lines_of(body),
            seen_in(record),
            lines_of(body).len() as int,
        ).0,
        None => Seq::empty(),
    }
}

fn read_seen(record: &str) -> (seen: HashSet<u64>)
    ensures
        seen@ == seen_in(record@),
{
    let lines = text::lines(record);
    let ghost all = lines_of(record@);
    let mut seen: HashSet<u64> = HashSet::new();
    let mut i: usize = 0;
    while i < lines.len()
        invariant
            i <= lines@.len(),
            all == texts(lines@),
            seen@ == seen_upto(all, i as int),
        decreases lines@.len() - i,
    {
        assert(all[i as int] == lines@[i as int]@);
        if let Some(h) = text::parse_u64(&text::trim(&lines[i])) {
            seen.insert(h);
        }
        i = i + 1;
    }
    assert(all.len() == lines@.len());
    seen
}

/// The lines of a feeder that were never seen before, and what is to be
/// appended to the record: a line queued once stays queued once, forever.
pub fn new_source_lines(out: &str, record: &str) -> (r: (Vec<String>, String))
    ensures
        texts(r.0@) == fresh_lines(out@, record@),
        r.1@ == recorded_text(fresh_lines(out@, record@)),
{
    let mut fresh: Vec<String> = Vec::new();
    let mut appended = "".to_string();
    assert(texts(fresh@) =~= Seq::<Seq<char>>::empty());
    let body = match text::strip_prefix(out, "ok") {
        Some(b) => b,
        None => {
            return (fresh, appended);
        },
    };
    let mut seen = read_seen(record);
    let ghost start = seen@;
    let lines = text::lines(&body);
    let ghost all = lines_of(body@);
    let mut i: usize = 0;
    while i < lines.len()
        invariant
            i <= lines@.len(),
            all == texts(lines@),
            (texts(fresh@), seen@) == fresh_upto(all, start, i as int),
            appended@ == recorded_text(texts(fresh@)),
        decreases lines@.len() - i,
    {
        assert(all[i as int] == lines@[i as int]@);
        let line = text::trim(&lines[i]);
        if !text::empty(&line) {
            let h = ledger::fnv(&line);
            if seen.insert(h) {
                let n = text::dec(h);
                appended.append(&n);
                appended.append("\n");
                proof {
                    text::lemma_texts_push(fresh@, line);
                    assert(texts(fresh@).push(line@).drop_last() =~= texts(fresh@));
                }
                fresh.push(line);
            } else {
                assert(seen@ =~= fresh_upto(all, start, i as int).1);
            }
        }
        i = i + 1;
    }
    assert(all.len() == lines@.len());
    (fresh, appended)
}

// ---------------------------------------------------------------------------
// Events
// ---------------------------------------------------------------------------

/// A number with two digits at least.
pub open spec fn two(n: nat) -> Seq<char> {
    if n < 10 {
        "0"@ + decimal(n)
    } else {
        decimal(n)
    }
}

/// The time of day of a number of seconds, in hours, minutes and seconds.
pub open spec fn clock(secs: nat) -> Seq<char> {
    let s = secs % 86_400;
    two(s / 3600) + ":"@ + two((s % 3600) / 60) + ":"@ + two(s % 60)
}

fn two_digits(n: u64) -> (r: String)
    ensures
        r@ == two(n as nat),
{
    let d = text::dec(n);
    if n < 10 {
        let mut t = "0".to_string();
        t.append(&d);
        t
    } else {
        d
    }
}

/// HH:MM:SS (UTC) of a number of seconds since the epoch.
pub fn stamp(secs: u64) -> (r: String)
    ensures
        r@ == clock(secs as nat),
{
    let s: u64 = secs % 86_400;
    let mut t = two_digits(s / 3600);
    t.append(":");
    let m = two_digits((s % 3600) / 60);
    t.append(&m);
    t.append(":");
    let c = two_digits(s % 60);
    t.append(&c);
    t
}

/// How an event reads in the log; some are not logged.
pub open spec fn ev_line(ev: EvV) -> Option<Seq<char>> {
    match ev {
        EvV::Turn(t) => Some("turn "@ + decimal(t as nat)),
        EvV::Action(_, a) => Some("· "@ + a),
        EvV::Result(_, r) => Some("  "@ + first_line(r)),
        EvV::Say(s) => Some("S "@ + s),
        EvV::Sub(n, l) => Some("["@ + n + "] "@ + first_line(l)),
        EvV::SubDone(n) => Some("["@ + n + "] done"@),
        EvV::Report(r) => Some(r),
        EvV::Done(m) => Some("DONE: "@ + first_line(m)),
        EvV::Delta(_) => None,
        EvV::Ctx(_) => None,
        EvV::Plan(_) => None,
    }
}

fn first_of(s: &str) -> (r: String)
    ensures
        r@ == first_line(s@),
{
    let (first, _n) = text::line_count(s);
    first
}

pub fn fmt_ev(ev: &Ev) -> (r: Option<String>)
    ensures
        opt_text(r) == ev_line(ev@),
{
    match ev {
        Ev::Turn(t) => {
            let mut s = "turn ".to_string();
            let n = text::dec(*t as u64);
            s.append(&n);
            Some(s)
        },
        Ev::Action(_, a) => {
            let mut s = "· ".to_string();
            s.append(a);
            Some(s)
        },
        Ev::Result(_, x) => {
            let mut s = "  ".to_string();
            let f = first_of(x);
            s.append(&f);
            Some(s)
        },
        Ev::Say(t) => {
            let mut s = "S ".to_string();
            s.append(t);
            Some(s)
        },
        Ev::Sub(n, l) => {
            let mut s = "[".to_string();
            s.append(n);
            s.append("] ");
            let f = first_of(l);
            s.append(&f);
            Some(s)
        },
        Ev::SubDone(n) => {
            let mut s = "[".to_string();
            s.append(n);
            s.append("] done");
            Some(s)
        },
        Ev::Report(t) => Some(t.clone()),
        Ev::Done(m) => {
            let mut s = "DONE: ".to_string();
            let f = first_of(m);
            s.append(&f);
            Some(s)
        },
        Ev::Delta(_) => None,
        Ev::Ctx(_) => None,
        Ev::Plan(_) => None,
    }
}

// ---------------------------------------------------------------------------
// One agent's page
// ---------------------------------------------------------------------------

/// How many lines a page keeps.
pub const LOG_CAP: usize = 2000;

/// What is known of an agent.
pub struct Pane {
    pub running: bool,
    pub turn: u32,
    pub ctx: u64,
    pub last: String,
    pub plan: String,
    pub log: Vec<(Style, String)>,
}

#[verifier::ext_equal]
pub struct PaneV {
    pub running: bool,
    pub turn: u32,
    pub ctx: u64,
    pub last: Seq<char>,
    pub plan: Seq<char>,
    pub log: Seq<(Style, Seq<char>)>,
}

impl View for Pane {
    type V = PaneV;

    open spec fn view(&self) -> PaneV {
        PaneV {
            running: self.running,
            turn: self.turn,
            ctx: self.ctx,
            last: self.last@,
            plan: self.plan@,
            log: styled(self.log@),
        }
    }
}

/// The log with some lines added, one by one.
pub open spec fn with_lines(
    log: Seq<(Style, Seq<char>)>,
    style: Style,
    lines: Seq<Seq<char>>,
) -> Seq<(Style, Seq<char>)>
    decreases lines.len(),
{
    if lines.len() == 0 {
        log
    } else {
        screen::last_lines(
            with_lines(log, style, lines.drop_last()).push((style, lines.last())),
            LOG_CAP as int,
        )
    }
}

/// The page with a text added, line by line.
pub open spec fn pane_pushed(p: PaneV, style: Style, t: Seq<char>) -> PaneV {
    PaneV { log: with_lines(p.log, style, lines_of(t)), ..p }
}

/// How a result is shown: failures stand out.
pub open spec fn result_style(r: Seq<char>) -> Style {
    if begins(r, "err"@) || begins(r, "exit "@) || begins(r, "model error"@) || begins(
        r,
        "(aborted"@,
    ) {
        Style::Failed
    } else {
        Style::Dim
    }
}

/// How something said is shown: tasks and messages are the user's.
pub open spec fn say_style(s: Seq<char>) -> Style {
    if begins(s, "task: "@) || begins(s, "source task: "@) || begins(s, "(mid-run message)"@) {
        Style::User
    } else {
        Style::Plain
    }
}

/// The page after an event. `now` is the time of day.
pub open spec fn pane_took(p: PaneV, ev: EvV, now: Seq<char>) -> PaneV {
    match ev {
        EvV::Turn(t) => PaneV { running: true, turn: t, ..p },
        EvV::Ctx(n) => PaneV { ctx: n, ..p },
        EvV::Action(_, a) => pane_pushed(PaneV { last: a, ..p }, Style::Act, "  · "@ + a),
        EvV::Result(_, r) => pane_pushed(p, result_style(r), "    "@ + r),
        EvV::Say(s) => pane_pushed(p, say_style(s), s),
        EvV::Sub(n, l) => pane_pushed(p, Style::Dim, "  ["@ + n + "] "@ + first_line(l)),
        EvV::SubDone(n) => pane_pushed(p, Style::Dim, "  ["@ + n + "] finished"@),
        EvV::Plan(t) => PaneV { plan: t, ..p },
        EvV::Report(r) => PaneV { running: false, ..pane_pushed(p, Style::Dim, "  "@ + r) },
        EvV::Done(m) => PaneV {
            running: false,
            ..pane_pushed(
                pane_pushed(p, Style::Plain, "DONE: "@ + m),
                Style::Dim,
                "── finished "@ + now + " ──"@,
            )
        },
        EvV::Delta(_) => p,
    }
}

impl Pane {
    pub fn new() -> (r: Pane)
        ensures
            r@ == (PaneV {
                running: false,
                turn: 0,
                ctx: 0,
                last: ""@,
                plan: ""@,
                log: Seq::empty(),
            }),
    {
        let r = Pane {
            running: false,
            turn: 0,
            ctx: 0,
            last: "".to_string(),
            plan: "".to_string(),
            log: Vec::new(),
        };
        assert(r@.log =~= Seq::<(Style, Seq<char>)>::empty());
        r
    }

    /// Adds a text to the page, line by line.
    pub fn push(&mut self, style: Style, t: &str)
        ensures
            final(self)@ == pane_pushed(old(self)@, style, t@),
    {
        let lines = text::lines(t);
        let ghost all = lines_of(t@);
        let ghost p0 = self@;
        let mut i: usize = 0;
        assert(all.take(0) =~= Seq::<Seq<char>>::empty());
        while i < lines.len()
            invariant
                i <= lines@.len(),
                all == texts(lines@),
                self@ == (PaneV { log: with_lines(p0.log, style, all.take(i as int)), ..p0 }),
            decreases lines@.len() - i,
        {
            assert(all.take(i + 1).drop_last() =~= all.take(i as int));
            assert(all.take(i + 1).last() == lines@[i as int]@);
            screen::add_line(&mut self.log, style, lines[i].clone(), LOG_CAP);
            i = i + 1;
        }
        assert(all.take(all.len() as int) =~= all);
    }

    /// Takes in an event. `now` is the time of day.
    pub fn take(&mut self, ev: Ev, now: &str)
        ensures
            final(self)@ == pane_took(old(self)@, ev@, now@),
    {
        match ev {
            Ev::Turn(t) => {
                self.running = true;
                self.turn = t;
            },
            Ev::Ctx(n) => {
                self.ctx = n;
            },
            Ev::Action(_, a) => {
                let mut line = "  · ".to_string();
                line.append(&a);
                self.last = a;
                self.push(Style::Act, &line);
            },
            Ev::Result(_, r) => {
                let failed = text::starts_with(&r, "err") || text::starts_with(&r, "exit ")
                    || text::starts_with(&r, "model error") || text::starts_with(&r, "(aborted");
                let mut line = "    ".to_string();
                line.append(&r);
                self.push(
                    if failed {
                        Style::Failed
                    } else {
                        Style::Dim
                    },
                    &line,
                );
            },
            Ev::Say(s) => {
                let user = text::starts_with(&s, "task: ") || text::starts_with(
                    &s,
                    "source task: ",
                ) || text::starts_with(&s, "(mid-run message)");
                self.push(
                    if user {
                        Style::User
                    } else {
                        Style::Plain
                    },
                    &s,
                );
            },
            Ev::Sub(n, l) => {
                let mut line = "  [".to_string();
                line.append(&n);
                line.append("] ");
                let f = first_of(&l);
                line.append(&f);
                self.push(Style::Dim, &line);
            },
            Ev::SubDone(n) => {
                let mut line = "  [".to_string();
                line.append(&n);
                line.append("] finished");
                self.push(Style::Dim, &line);
            },
            Ev::Plan(p) => {
                self.plan = p;
            },
            Ev::Report(r) => {
                let mut line = "  ".to_string();
                line.append(&r);
                self.push(Style::Dim, &line);
                self.running = false;
            },
            Ev::Done(m) => {
                let mut line = "DONE: ".to_string();
                line.append(&m);
                self.push(Style::Plain, &line);
                let mut end = "── finished ".to_string();
                end.append(now);
                end.append(" ──");
                self.push(Style::Dim, &end);
                self.running = false;
            },
            Ev::Delta(_) => {},
        }
    }
}

// ---------------------------------------------------------------------------
// Pages
// ---------------------------------------------------------------------------

/// The page that is shown: 0 is the overview, and the agents follow.
pub struct Pages {
    pub count: usize,
    pub page: usize,
    /// The agent that is selected in the overview.
    pub selected: usize,
    pub input: String,
}

#[verifier::ext_equal]
pub struct PagesV {
    pub count: usize,
    pub page: usize,
    pub selected: usize,
    pub input: Seq<char>,
}

impl View for Pages {
    type V = PagesV;

    open spec fn view(&self) -> PagesV {
        PagesV {
            count: self.count,
            page: self.page,
            selected: self.selected,
            input: self.input@,
        }
    }
}

/// A key that means something.
pub enum Key {
    /// Ctrl-C.
    Interrupt,
    /// Right or Tab.
    Next,
    /// Left or Shift-Tab.
    Back,
    Up,
    Down,
    Enter,
    Backspace,
    Escape,
    Char(char),
    Other,
}

/// What a key asks to be done outside.
pub enum Ask {
    Nothing,
    Quit,
    /// Drop a task into the inbox of an agent.
    Send { agent: usize, line: String },
}

#[verifier::ext_equal]
pub enum AskV {
    Nothing,
    Quit,
    Send { agent: usize, line: Seq<char> },
}

impl View for Ask {
    type V = AskV;

    open spec fn view(&self) -> AskV {
        match *self {
            Ask::Nothing => AskV::Nothing,
            Ask::Quit => AskV::Quit,
            Ask::Send { agent, line } => AskV::Send { agent, line: line@ },
        }
    }
}

/// What Enter does: it opens the selected agent, or talks to the one shown.
pub open spec fn entered(p: PagesV) -> (PagesV, AskV) {
    if p.page == 0 {
        (PagesV { page: (p.selected + 1) as usize, ..p }, AskV::Nothing)
    } else {
        let line = trimmed(p.input);
        let q = PagesV { input: ""@, ..p };
        if line == "/q"@ {
            (q, AskV::Quit)
        } else if line.len() > 0 {
            (q, AskV::Send { agent: (p.page - 1) as usize, line })
        } else {
            (q, AskV::Nothing)
        }
    }
}

/// What a key does.
pub open spec fn paged(p: PagesV, key: Key) -> (PagesV, AskV) {
    match key {
        Key::Interrupt => (p, AskV::Quit),
        Key::Next => (
            PagesV {
                page: if p.page < p.count {
                    (p.page + 1) as usize
                } else {
                    0
                },
                ..p
            },
            AskV::Nothing,
        ),
        Key::Back => (
            PagesV {
                page: if p.page > 0 {
                    (p.page - 1) as usize
                } else {
                    p.count
                },
                ..p
            },
            AskV::Nothing,
        ),
        Key::Up => (
            if p.page == 0 && p.selected > 0 {
                PagesV { selected: (p.selected - 1) as usize, ..p }
            } else {
                p
            },
            AskV::Nothing,
        ),
        Key::Down => (
            if p.page == 0 && p.selected + 1 < p.count {
                PagesV { selected: (p.selected + 1) as usize, ..p }
            } else {
                p
            },
            AskV::Nothing,
        ),
        Key::Enter => entered(p),
        Key::Backspace => (
            PagesV {
                input: if p.input.len() > 0 {
                    p.input.drop_last()
                } else {
                    p.input
                },
                ..p
            },
            AskV::Nothing,
        ),
        Key::Escape => (PagesV { page: 0, ..p }, AskV::Nothing),
        Key::Char(c) => (PagesV { input: p.input.push(c), ..p }, AskV::Nothing),
        Key::Other => (p, AskV::Nothing),
    }
}

impl Pages {
    /// There is a page for every agent, and one of them is selected.
    pub open spec fn wf(self) -> bool {
        self.page <= self.count && self.selected < self.count
    }

    /// The overview of a fleet, which has at least one agent.
    pub fn new(count: usize) -> (r: Pages)
        requires
            count > 0,
        ensures
            r.wf(),
            r@ == (PagesV { count, page: 0, selected: 0, input: ""@ }),
    {
        Pages { count, page: 0, selected: 0, input: "".to_string() }
    }

    /// Takes in a key.
    pub fn key(&mut self, key: Key) -> (ask: Ask)
        requires
            old(self).wf(),
        ensures
            final(self).wf(),
            (final(self)@, ask@) == paged(old(self)@, key),
    {
        match key {
            Key::Interrupt => {
                return Ask::Quit;
            },
            Key::Next => {
                self.page = if self.page < self.count {
                    self.page + 1
                } else {
                    0
                };
            },
            Key::Back => {
                self.page = if self.page > 0 {
                    self.page - 1
                } else {
                    self.count
                };
            },
            Key::Up => {
                if self.page == 0 && self.selected > 0 {
                    self.selected = self.selected - 1;
                }
            },
            Key::Down => {
                if self.page == 0 && self.count - self.selected > 1 {
                    self.selected = self.selected + 1;
                }
            },
            Key::Enter => {
                if self.page == 0 {
                    self.page = self.selected + 1;
                    return Ask::Nothing;
                }
                let line = text::trim(&self.input);
                self.input = "".to_string();
                if text::same(&line, "/q") {
                    return Ask::Quit;
                }
                if !text::empty(&line) {
                    return Ask::Send { agent: self.page - 1, line };
                }
            },
            Key::Backspace => {
                let v = text::chars_of(&self.input);
                if v.len() > 0 {
                    assert(v@.subrange(0, v@.len() - 1) =~= self.input@.drop_last());
                    self.input = text::text_between(&v, 0, v.len() - 1);
                }
            },
            Key::Escape => {
                self.page = 0;
            },
            Key::Char(c) => {
                self.input.push(c);
            },
            Key::Other => {},
        }
        Ask::Nothing
    }
}

// ---------------------------------------------------------------------------
// What the pages show
// ---------------------------------------------------------------------------

/// A frame of the spinner.
pub fn spinner(n: usize) -> (r: &'static str)
    ensures
        r@ == spinner_frame(n as int),
{
    let k: usize = n % 10;
    if k == 0 {
        "⠋"
    } else if k == 1 {
        "⠙"
    } else if k == 2 {
        "⠹"
    } else if k == 3 {
        "⠸"
    } else if k == 4 {
        "⠼"
    } else if k == 5 {
        "⠴"
    } else if k == 6 {
        "⠦"
    } else if k == 7 {
        "⠧"
    } else if k == 8 {
        "⠇"
    } else {
        "⠏"
    }
}

pub open spec fn spinner_frame(n: int) -> Seq<char> {
    let k = n % 10;
    if k == 0 {
        "⠋"@
    } else if k == 1 {
        "⠙"@
    } else if k == 2 {
        "⠹"@
    } else if k == 3 {
        "⠸"@
    } else if k == 4 {
        "⠼"@
    } else if k == 5 {
        "⠴"@
    } else if k == 6 {
        "⠦"@
    } else if k == 7 {
        "⠧"@
    } else if k == 8 {
        "⠇"@
    } else {
        "⠏"@
    }
}

/// A context size, in thousands from one thousand on. `thousands` is the
/// number in thousands with one digit after the point.
pub open spec fn ctx_text(n: u64, thousands: Seq<char>) -> Seq<char> {
    if n >= 1000 {
        thousands + "k"@
    } else {
        decimal(n as nat) + "t"@
    }
}

fn ctx_shown(n: u64, thousands: &str) -> (r: String)
    ensures
        r@ == ctx_text(n, thousands@),
{
    if n >= 1000 {
        let mut t = thousands.to_owned();
        t.append("k");
        t
    } else {
        let mut t = text::dec(n);
        t.append("t");
        t
    }
}

/// A text with spaces before it, up to `w` characters.
pub open spec fn right(s: Seq<char>, w: int) -> Seq<char> {
    run_of(' ', w - s.len()) + s
}

fn flush_right(s: &str, w: usize) -> (r: String)
    ensures
        r@ == right(s@, w as int),
{
    let v = text::chars_of(s);
    if v.len() < w {
        let mut t = screen::repeated(' ', w - v.len());
        t.append(s);
        t
    } else {
        assert(right(s@, w as int) =~= s@);
        s.to_owned()
    }
}

/// The tab of one agent.
pub open spec fn tab(name: Seq<char>, running: bool, shown: bool) -> Seq<char> {
    let mark = if running {
        "*"@
    } else {
        ""@
    };
    if shown {
        " ["@ + name + mark + "]"@
    } else {
        "  "@ + name + mark + " "@
    }
}

/// The tab bar after the first `n` agents.
pub open spec fn tabs_upto(
    names: Seq<Seq<char>>,
    running: Seq<bool>,
    page: int,
    n: int,
) -> Seq<char>
    decreases n,
{
    if n <= 0 {
        if page == 0 {
            "[fleet]"@
        } else {
            " fleet "@
        }
    } else {
        tabs_upto(names, running, page, n - 1) + tab(names[n - 1], running[n - 1], page == n)
    }
}

/// The tab bar: as many characters as the screen is wide.
pub open spec fn bar_text(names: Seq<Seq<char>>, running: Seq<bool>, page: int, w: int) -> Seq<
    char,
> {
    padded(first_chars(tabs_upto(names, running, page, names.len() as int), w), w)
}

/// The tab bar.
pub fn tab_bar(names: &Vec<String>, running: &Vec<bool>, page: usize, w: usize) -> (r: String)
    requires
        running@.len() == names@.len(),
    ensures
        r@ == bar_text(texts(names@), running@, page as int, w as int),
{
    let mut tabs = if page == 0 {
        "[fleet]".to_string()
    } else {
        " fleet ".to_string()
    };
    let mut i: usize = 0;
    while i < names.len()
        invariant
            i <= names@.len(),
            running@.len() == names@.len(),
            tabs@ == tabs_upto(texts(names@), running@, page as int, i as int),
        decreases names@.len() - i,
    {
        let shown = page > 0 && page - 1 == i;
        let mark = if running[i] {
            "*"
        } else {
            ""
        };
        let mut t = if shown {
            " [".to_string()
        } else {
            "  ".to_string()
        };
        t.append(&names[i]);
        t.append(mark);
        t.append(
            if shown {
                "]"
            } else {
                " "
            },
        );
        tabs.append(&t);
        i = i + 1;
    }
    screen::pad(&screen::take_chars(&tabs, w), w)
}

/// What an agent does, in the overview.
pub open spec fn overview_state(p: PaneV, spin: int, thousands: Seq<char>) -> Seq<char> {
    if p.running {
        spinner_frame(spin) + " turn "@ + padded(decimal(p.turn as nat), 3) + " ctx "@ + right(
            ctx_text(p.ctx, thousands),
            6,
        )
    } else {
        "· idle              "@
    }
}

/// The row of an agent in the overview.
pub open spec fn overview_text(
    name: Seq<char>,
    p: PaneV,
    selected: bool,
    spin: int,
    thousands: Seq<char>,
    w: int,
) -> Seq<char> {
    first_chars(
        (if selected {
            ">"@
        } else {
            " "@
        }) + " "@ + padded(name, 14) + " "@ + overview_state(p, spin, thousands) + "  "@ + p.last,
        w - 1,
    )
}

/// The row of an agent in the overview.
pub fn overview_row(
    name: &str,
    p: &Pane,
    selected: bool,
    spin: usize,
    thousands: &str,
    w: usize,
) -> (r: String)
    requires
        w > 0,
    ensures
        r@ == overview_text(name@, p@, selected, spin as int, thousands@, w as int),
{
    let state = if p.running {
        let mut t = spinner(spin).to_owned();
        t.append(" turn ");
        let n = screen::pad(&text::dec(p.turn as u64), 3);
        t.append(&n);
        t.append(" ctx ");
        let c = flush_right(&ctx_shown(p.ctx, thousands), 6);
        t.append(&c);
        t
    } else {
        "· idle              ".to_string()
    };
    let mut line = if selected {
        ">".to_string()
    } else {
        " ".to_string()
    };
    line.append(" ");
    let who = screen::pad(name, 14);
    line.append(&who);
    line.append(" ");
    line.append(&state);
    line.append("  ");
    line.append(&p.last);
    screen::take_chars(&line, w - 1)
}

/// The head of an agent's page.
pub open spec fn head_of(p: PaneV, spin: int, thousands: Seq<char>, w: int) -> Seq<char> {
    first_chars(
        if p.running {
            " "@ + spinner_frame(spin) + " turn "@ + decimal(p.turn as nat) + " · ctx "@ + ctx_text(
                p.ctx,
                thousands,
            )
        } else {
            " idle · ctx "@ + ctx_text(p.ctx, thousands)
        },
        w,
    )
}

/// The head of an agent's page.
pub fn page_head(p: &Pane, spin: usize, thousands: &str, w: usize) -> (r: String)
    ensures
        r@ == head_of(p@, spin as int, thousands@, w as int),
{
    let ctx = ctx_shown(p.ctx, thousands);
    let line = if p.running {
        let mut t = " ".to_string();
        t.append(spinner(spin));
        t.append(" turn ");
        let n = text::dec(p.turn as u64);
        t.append(&n);
        t.append(" · ctx ");
        t.append(&ctx);
        t
    } else {
        let mut t = " idle · ctx ".to_string();
        t.append(&ctx);
        t
    };
    screen::take_chars(&line, w)
}

/// The rows of an agent's page that fit between its head and the input box.
pub fn page_rows(p: &Pane, w: usize, h: usize) -> (r: Vec<(Style, String)>)
    requires
        w >= 2,
        h >= 6,
    ensures
        styled(r@) == visible(p@.log, w - 2, 0, h - 6),
{
    screen::visible_rows(&p.log, w - 2, 0, h - 6)
}

/// The input line of a page; the overview shows what the keys do.
pub open spec fn prompt_text(page: int, input: Seq<char>, w: int) -> Seq<char> {
    last_chars(
        if page == 0 {
            "↑↓ select · Enter open · Tab cycle · Ctrl+C quit"@
        } else {
            "> "@ + input
        },
        w,
    )
}

/// The input line of a page.
pub fn prompt_line(page: usize, input: &str, w: usize) -> (r: String)
    requires
        w > 0,
    ensures
        r@ == prompt_text(page as int, input@, w as int),
{
    let prompt = if page == 0 {
        "↑↓ select · Enter open · Tab cycle · Ctrl+C quit".to_string()
    } else {
        let mut t = "> ".to_string();
        t.append(input);
        t
    };
    screen::end_chars(&prompt, w)
}

/// The agents' states.
pub open spec fn states(v: Seq<Pane>) -> Seq<PaneV> {
    v.map_values(|p: Pane| p@)
}

/// Which of the agents run.
pub open spec fn runs(v: Seq<PaneV>) -> Seq<bool> {
    v.map_values(|p: PaneV| p.running)
}

/// The overview page: a row for each agent, from the third row on, with an
/// empty one between.
pub open spec fn overview_body(
    names: Seq<Seq<char>>,
    panes: Seq<PaneV>,
    selected: int,
    spin: int,
    thousands: Seq<Seq<char>>,
    w: int,
) -> Seq<(int, Style, Seq<char>)> {
    Seq::new(
        names.len(),
        |i: int|
            (
                2 + 2 * i,
                if panes[i].running {
                    Style::Act
                } else {
                    Style::Dim
                },
                overview_text(names[i], panes[i], i == selected, spin, thousands[i], w),
            ),
    )
}

/// The page of one agent: its head on the second row, and below it, down to the
/// input box, the end of its log, anchored at the bottom.
pub open spec fn agent_body(p: PaneV, spin: int, thousands: Seq<char>, w: int, h: int) -> Seq<
    (int, Style, Seq<char>),
> {
    let log = visible(p.log, w - 2, 0, h - 6);
    seq![(1int, Style::Dim, head_of(p, spin, thousands, w))] + stacked(log, h - 4 - log.len())
}

/// The input box: the prompt between two borders, above the last row.
pub open spec fn input_box(page: int, input: Seq<char>, w: int, h: int) -> Seq<
    (int, Style, Seq<char>),
> {
    seq![
        (h - 4, Style::Dim, run_of('─', w - 1)),
        (
            h - 3,
            if page == 0 {
                Style::Dim
            } else {
                Style::Plain
            },
            prompt_text(page, input, w),
        ),
        (h - 2, Style::Dim, run_of('─', w - 1)),
    ]
}

/// What stands below the tab bar, in the order in which it is drawn.
pub open spec fn page_body(
    pages: PagesV,
    names: Seq<Seq<char>>,
    panes: Seq<PaneV>,
    spin: int,
    thousands: Seq<Seq<char>>,
    w: int,
    h: int,
) -> Seq<(int, Style, Seq<char>)> {
    (if pages.page == 0 {
        overview_body(names, panes, pages.selected as int, spin, thousands, w)
    } else if pages.page <= panes.len() {
        agent_body(panes[pages.page - 1], spin, thousands[pages.page - 1], w, h)
    } else {
        Seq::empty()
    }) + input_box(pages.page as int, pages.input, w, h)
}

/// A page as it is drawn.
pub struct Frame {
    /// The tab bar, on the first row.
    pub bar: String,
    pub body: Vec<Placed>,
}

fn overview(
    names: &Vec<String>,
    panes: &Vec<Pane>,
    selected: usize,
    spin: usize,
    thousands: &Vec<String>,
    w: usize,
) -> (r: Vec<Placed>)
    requires
        w > 0,
        names@.len() == panes@.len(),
        names@.len() == thousands@.len(),
        2 + 2 * names@.len() <= usize::MAX,
    ensures
        placed(r@) == overview_body(
            texts(names@),
            states(panes@),
            selected as int,
            spin as int,
            texts(thousands@),
            w as int,
        ),
{
    let ghost all = overview_body(
        texts(names@),
        states(panes@),
        selected as int,
        spin as int,
        texts(thousands@),
        w as int,
    );
    let mut body: Vec<Placed> = Vec::new();
    let mut i: usize = 0;
    assert(placed(body@) =~= all.take(0));
    while i < names.len()
        invariant
            w > 0,
            i <= names@.len(),
            names@.len() == panes@.len(),
            names@.len() == thousands@.len(),
            2 + 2 * names@.len() <= usize::MAX,
            all == overview_body(
                texts(names@),
                states(panes@),
                selected as int,
                spin as int,
                texts(thousands@),
                w as int,
            ),
            placed(body@) == all.take(i as int),
        decreases names@.len() - i,
    {
        let style = if panes[i].running {
            Style::Act
        } else {
            Style::Dim
        };
        let line = overview_row(&names[i], &panes[i], i == selected, spin, &thousands[i], w);
        proof {
            assert(texts(names@)[i as int] == names@[i as int]@);
            assert(texts(thousands@)[i as int] == thousands@[i as int]@);
            assert(states(panes@)[i as int] == panes@[i as int]@);
            assert(all[i as int] == (2 + 2 * i, style, line@));
        }
        screen::put_at(&mut body, 2 + 2 * i, style, line);
        assert(all.take(i + 1) =~= all.take(i as int).push(all[i as int]));
        i = i + 1;
    }
    assert(all.take(all.len() as int) =~= all);
    body
}

fn agent_page(p: &Pane, spin: usize, thousands: &str, w: usize, h: usize) -> (r: Vec<Placed>)
    requires
        w >= 2,
        h >= 6,
    ensures
        placed(r@) == agent_body(p@, spin as int, thousands@, w as int, h as int),
{
    let mut body: Vec<Placed> = Vec::new();
    assert(placed(body@) =~= Seq::<(int, Style, Seq<char>)>::empty());
    let head = page_head(p, spin, thousands, w);
    let ghost first = (1int, Style::Dim, head@);
    screen::put_at(&mut body, 1, Style::Dim, head);
    assert(placed(body@) =~= seq![first]);
    let rows = page_rows(p, w, h);
    proof {
        assert(rows@.len() == styled(rows@).len());
        screen::windows_fit(screen::rows_from(p@.log, w - 2, 0), 0, h - 6);
    }
    let at: usize = h - 4 - rows.len();
    screen::stack(&mut body, rows, at);
    body
}

impl Pages {
    /// What the screen shows; nothing on a screen that is too small. `thousands`
    /// holds what each agent's context comes to, in thousands.
    pub fn frame(
        &self,
        names: &Vec<String>,
        panes: &Vec<Pane>,
        spin: usize,
        thousands: &Vec<String>,
        w: usize,
        h: usize,
    ) -> (r: Option<Frame>)
        requires
            names@.len() == panes@.len(),
            names@.len() == thousands@.len(),
            2 + 2 * names@.len() <= usize::MAX,
        ensures
            match r {
                Some(f) => {
                    &&& h >= 8 && w >= 30
                    &&& f.bar@ == bar_text(
                        texts(names@),
                        runs(states(panes@)),
                        self.page as int,
                        w as int,
                    )
                    &&& placed(f.body@) == page_body(
                        self@,
                        texts(names@),
                        states(panes@),
                        spin as int,
                        texts(thousands@),
                        w as int,
                        h as int,
                    )
                },
                None => h < 8 || w < 30,
            },
    {
        if h < 8 || w < 30 {
            return None;
        }
        let ghost all = runs(states(panes@));
        let mut running: Vec<bool> = Vec::new();
        let mut i: usize = 0;
        while i < panes.len()
            invariant
                i <= panes@.len(),
                all == runs(states(panes@)),
                running@ =~= all.take(i as int),
            decreases panes@.len() - i,
        {
            running.push(panes[i].running);
            assert(all[i as int] == panes@[i as int].running);
            assert(all.take(i + 1) =~= all.take(i as int).push(all[i as int]));
            i = i + 1;
        }
        assert(running@ =~= all);
        let bar = tab_bar(names, &running, self.page, w);
        let mut body = if self.page == 0 {
            overview(names, panes, self.selected, spin, thousands, w)
        } else if self.page <= panes.len() {
            proof {
                let k = self.page - 1;
                assert(states(panes@)[k] == panes@[k]@);
                assert(texts(thousands@)[k] == thousands@[k]@);
            }
            agent_page(&panes[self.page - 1], spin, &thousands[self.page - 1], w, h)
        } else {
            let none: Vec<Placed> = Vec::new();
            assert(placed(none@) =~= Seq::<(int, Style, Seq<char>)>::empty());
            none
        };
        let ghost page = placed(body@);
        let border = screen::repeated('─', w - 1);
        let prompt = prompt_line(self.page, &self.input, w);
        screen::put_at(&mut body, h - 4, Style::Dim, border.clone());
        let style = if self.page == 0 {
            Style::Dim
        } else {
            Style::Plain
        };
        screen::put_at(&mut body, h - 3, style, prompt);
        screen::put_at(&mut body, h - 2, Style::Dim, border);
        assert(placed(body@) =~= page + input_box(
            self.page as int,
            self.input@,
            w as int,
            h as int,
        ));
        Some(Frame { bar, body })
    }
}

// ---------------------------------------------------------------------------
// Laws
// ---------------------------------------------------------------------------

proof fn lemma_fresh_known(lines: Seq<Seq<char>>, seen: Set<u64>, n: int, i: int)
    requires
        0 <= i < n <= lines.len(),
        trimmed(lines[i]).len() > 0,
    ensures
        fresh_upto(lines, seen, n).1.contains(hash_of(trimmed(lines[i]))),
    decreases n,
{
    if i < n - 1 {
        lemma_fresh_known(lines, seen, n - 1, i);
    }
}

proof fn lemma_nothing_fresh(lines: Seq<Seq<char>>, known: Set<u64>, n: int)
    requires
        0 <= n <= lines.len(),
        forall|i: int|
            0 <= i < n && trimmed(#[trigger] lines[i]).len() > 0 ==> known.contains(
                hash_of(trimmed(lines[i])),
            ),
    ensures
        fresh_upto(lines, known, n) == (Seq::<Seq<char>>::empty(), known),
    decreases n,
{
    if n > 0 {
        lemma_nothing_fresh(lines, known, n - 1);
    }
}

/// A line queued once stays queued once, forever: once a poll has recorded
/// what it saw, a poll that prints the same lines again queues nothing.
pub proof fn queued_once(lines: Seq<Seq<char>>, seen: Set<u64>)
    ensures
        fresh_upto(lines, fresh_upto(lines, seen, lines.len() as int).1, lines.len() as int).0
            == Seq::<Seq<char>>::empty(),
{
    let n = lines.len() as int;
    let known = fresh_upto(lines, seen, n).1;
    assert forall|i: int| 0 <= i < n && trimmed(#[trigger] lines[i]).len() > 0 implies known.contains(
        hash_of(trimmed(lines[i])),
    ) by {
        lemma_fresh_known(lines, seen, n, i);
    }
    lemma_nothing_fresh(lines, known, n);
}

/// The hashes of some lines.
pub open spec fn hashes_of(fresh: Seq<Seq<char>>) -> Set<u64>
    decreases fresh.len(),
{
    if fresh.len() == 0 {
        Set::empty()
    } else {
        hashes_of(fresh.drop_last()).insert(hash_of(fresh.last()))
    }
}

proof fn lemma_trimmed_number(n: nat)
    ensures
        trimmed(decimal(n)) == decimal(n),
{
    text::lemma_decimal(n);
    let s = decimal(n);
    assert(is_digit(s[0]));
    assert(is_digit(s[s.len() - 1]));
    assert(!is_space(s[0]));
    assert(!is_space(s[s.len() - 1]));
    assert(s.skip(0) =~= s);
    assert(s.take(s.len() as int) =~= s);
}

/// The lines of a record, as numbers.
pub open spec fn record_lines(fresh: Seq<Seq<char>>) -> Seq<Seq<char>> {
    fresh.map_values(|l: Seq<char>| decimal(hash_of(l) as nat))
}

proof fn lemma_record_text(fresh: Seq<Seq<char>>)
    ensures
        fresh.len() > 0 ==> recorded_text(fresh) == joined(record_lines(fresh), "\n"@) + "\n"@,
    decreases fresh.len(),
{
    if fresh.len() > 0 {
        let rows = record_lines(fresh);
        let before = fresh.drop_last();
        lemma_record_text(before);
        assert(rows.drop_last() =~= record_lines(before));
        assert(rows.last() == decimal(hash_of(fresh.last()) as nat));
        if before.len() == 0 {
            reveal_strlit("");
            assert(recorded_text(before) == ""@);
            assert(recorded_text(fresh) =~= joined(rows, "\n"@) + "\n"@);
        } else {
            assert(recorded_text(fresh) =~= joined(rows, "\n"@) + "\n"@);
        }
    }
}

proof fn lemma_seen_rows(fresh: Seq<Seq<char>>, n: int)
    requires
        0 <= n <= fresh.len(),
    ensures
        seen_upto(record_lines(fresh), n) == hashes_of(fresh.take(n)),
    decreases n,
{
    if n > 0 {
        lemma_seen_rows(fresh, n - 1);
        let h = hash_of(fresh[n - 1]);
        lemma_trimmed_number(h as nat);
        text::decimal_reads_back(h as nat);
        assert(record_lines(fresh)[n - 1] == decimal(h as nat));
        assert(fresh.take(n).drop_last() =~= fresh.take(n - 1));
        assert(fresh.take(n).last() == fresh[n - 1]);
    } else {
        assert(fresh.take(0) =~= Seq::<Seq<char>>::empty());
    }
}

/// A record reads back what was written to it: the hashes of all lines that
/// were ever new.
pub proof fn the_record_reads_back(fresh: Seq<Seq<char>>)
    ensures
        seen_in(recorded_text(fresh)) == hashes_of(fresh),
{
    if fresh.len() == 0 {
        reveal_strlit("");
        assert(lines_of(recorded_text(fresh)) =~= Seq::<Seq<char>>::empty());
    } else {
        let rows = record_lines(fresh);
        lemma_record_text(fresh);
        assert forall|i: int| 0 <= i < rows.len() implies text::plain_line(#[trigger] rows[i]) by {
            let h = hash_of(fresh[i]) as nat;
            text::lemma_decimal(h);
            assert(rows[i] == decimal(h));
            let s = decimal(h);
            assert forall|k: int| 0 <= k < s.len() implies s[k] != '\n' by {
                assert(is_digit(s[k]));
            }
            assert(is_digit(s[s.len() - 1]));
        }
        text::lines_read_back(rows);
        lemma_seen_rows(fresh, fresh.len() as int);
        assert(fresh.take(fresh.len() as int) =~= fresh);
    }
}

proof fn lemma_records_join(a: Seq<Seq<char>>, b: Seq<Seq<char>>)
    ensures
        recorded_text(a) + recorded_text(b) == recorded_text(a + b),
        hashes_of(a + b) == hashes_of(a).union(hashes_of(b)),
    decreases b.len(),
{
    if b.len() == 0 {
        reveal_strlit("");
        assert(a + b =~= a);
        assert(recorded_text(a) + recorded_text(b) =~= recorded_text(a));
        assert(hashes_of(a) =~= hashes_of(a).union(hashes_of(b)));
    } else {
        lemma_records_join(a, b.drop_last());
        assert((a + b).drop_last() =~= a + b.drop_last());
        assert((a + b).last() == b.last());
        assert(recorded_text(a) + recorded_text(b) =~= recorded_text(a + b));
        assert(hashes_of(a + b) =~= hashes_of(a).union(hashes_of(b)));
    }
}

proof fn lemma_known_after(lines: Seq<Seq<char>>, seen: Set<u64>, n: int)
    requires
        0 <= n <= lines.len(),
    ensures
        fresh_upto(lines, seen, n).1 == seen.union(hashes_of(fresh_upto(lines, seen, n).0)),
    decreases n,
{
    let (fresh, known) = fresh_upto(lines, seen, n);
    if n == 0 {
        assert(known =~= seen.union(hashes_of(fresh)));
    } else {
        lemma_known_after(lines, seen, n - 1);
        let before = fresh_upto(lines, seen, n - 1).0;
        let line = trimmed(lines[n - 1]);
        if fresh.len() > before.len() {
            assert(fresh.drop_last() =~= before);
        }
        assert(known =~= seen.union(hashes_of(fresh)));
    }
}

/// A line that a feeder printed is queued once, forever: where the record is
/// what earlier polls left, the same output read again, after its new lines
/// were recorded behind the others, queues nothing.
pub proof fn a_poll_is_remembered(out: Seq<char>, earlier: Seq<Seq<char>>)
    ensures
        ({
            let record = recorded_text(earlier);
            let fresh = fresh_lines(out, record);
            fresh_lines(out, record + recorded_text(fresh)) == Seq::<Seq<char>>::empty()
        }),
        ({
            let record = recorded_text(earlier);
            let fresh = fresh_lines(out, record);
            record + recorded_text(fresh) == recorded_text(earlier + fresh)
        }),
{
    let record = recorded_text(earlier);
    let fresh = fresh_lines(out, record);
    lemma_records_join(earlier, fresh);
    if let Some(body) = stripped(out, "ok"@) {
        let lines = lines_of(body);
        let seen = seen_in(record);
        the_record_reads_back(earlier);
        the_record_reads_back(earlier + fresh);
        lemma_known_after(lines, seen, lines.len() as int);
        queued_once(lines, seen);
    }
}

/// A page never keeps more lines than its cap.
pub proof fn pages_are_capped(log: Seq<(Style, Seq<char>)>, style: Style, lines: Seq<Seq<char>>)
    requires
        log.len() <= LOG_CAP,
    ensures
        with_lines(log, style, lines).len() <= LOG_CAP,
{
}

/// Going forward and back again shows the same page.
pub proof fn pages_cycle(p: PagesV)
    requires
        p.page <= p.count,
        p.count < usize::MAX,
    ensures
        paged(paged(p, Key::Next).0, Key::Back).0 == p,
        paged(paged(p, Key::Back).0, Key::Next).0 == p,
{
}

/// Everything drawn on an agent's page lies on the screen, below the tab bar and
/// above the last row; the log never reaches into the input box. So does
/// everything on the overview, where there are rows enough for the fleet.
pub proof fn pages_stay_on_screen(
    pages: PagesV,
    names: Seq<Seq<char>>,
    panes: Seq<PaneV>,
    spin: int,
    thousands: Seq<Seq<char>>,
    w: int,
    h: int,
    i: int,
)
    requires
        h >= 8,
        w >= 30,
        pages.page > 0 || 2 * names.len() + 4 < h,
        0 <= i < page_body(pages, names, panes, spin, thousands, w, h).len(),
    ensures
        ({
            let body = page_body(pages, names, panes, spin, thousands, w, h);
            &&& 1 <= body[i].0 <= h - 2
            &&& i < body.len() - 3 ==> body[i].0 < body[body.len() - 3].0
        }),
{
    if 0 < pages.page <= panes.len() {
        let log = panes[pages.page - 1].log;
        screen::windows_fit(screen::rows_from(log, w - 2, 0), 0, h - 6);
    }
}

proof fn lemma_last_dot(s: Seq<char>, i: int, j: int)
    requires
        0 <= i <= j <= s.len(),
        i > 0 ==> s[i - 1] == '.',
        forall|k: int| i <= k < j ==> s[k] != '.',
    ensures
        last_after(s, '.', j) == i,
    decreases j - i,
{
    if i < j {
        lemma_last_dot(s, i, j - 1);
    }
}

/// A task is a file with the extension `task`; a name without one, with another, or
/// with nothing before it, is no task.
pub proof fn tasks_have_their_extension(stem: Seq<char>, ext: Seq<char>)
    requires
        !ext.contains('.'),
    ensures
        stem.len() > 0 ==> (is_task(stem + seq!['.'] + ext) <==> ext == "task"@),
        !is_task(seq!['.'] + ext),
        !is_task(ext),
{
    reveal_strlit("task");
    let s = stem + seq!['.'] + ext;
    let i = stem.len() + 1int;
    assert forall|k: int| 0 <= k < ext.len() implies ext[k] != '.' by {
        assert(ext.contains(ext[k]));
    }
    assert forall|k: int| i <= k < s.len() implies s[k] != '.' by {
        assert(s[k] == ext[k - i]);
    }
    lemma_last_dot(s, i, s.len() as int);
    assert(s.skip(i) =~= ext);
    let t = seq!['.'] + ext;
    assert forall|k: int| 1 <= k < t.len() implies t[k] != '.' by {
        assert(t[k] == ext[k - 1]);
    }
    lemma_last_dot(t, 1, t.len() as int);
    lemma_last_dot(ext, 0, ext.len() as int);
}

proof fn lemma_tasks(names: Seq<Seq<char>>, n: int, x: Seq<char>)
    requires
        0 <= n <= names.len(),
    ensures
        tasks_in(names, n).contains(x) <==> is_task(x) && names.take(n).contains(x),
    decreases n,
{
    if n > 0 {
        lemma_tasks(names, n - 1, x);
        let before = tasks_in(names, n - 1);
        let now = tasks_in(names, n);
        let last = names[n - 1];
        let part = names.take(n - 1);
        let all = names.take(n);
        assert(all =~= part.push(last));
        if part.contains(x) {
            let k = choose|k: int| 0 <= k < part.len() && part[k] == x;
            assert(all[k] == x);
        }
        if all.contains(x) {
            let k = choose|k: int| 0 <= k < all.len() && all[k] == x;
            if k < n - 1 {
                assert(part[k] == x);
            }
        }
        assert(all[n - 1] == last);
        if is_task(last) {
            assert(now[before.len() as int] == last);
            if before.contains(x) {
                let k = choose|k: int| 0 <= k < before.len() && before[k] == x;
                assert(now[k] == x);
            }
            if now.contains(x) {
                let k = choose|k: int| 0 <= k < now.len() && now[k] == x;
                if k < before.len() {
                    assert(before[k] == x);
                }
            }
        }
    }
}

/// The task that comes next is one of the files, and no task comes before it by its
/// name; there is none exactly where no file is a task.
pub proof fn the_oldest_task_comes_next(names: Seq<Seq<char>>, x: Seq<char>)
    ensures
        oldest(names) is Some ==> names.contains(oldest(names)->0) && is_task(oldest(names)->0),
        names.contains(x) && is_task(x) ==> oldest(names) is Some && (x == oldest(names)->0
            || !crate::table::precedes(x, oldest(names)->0)),
{
    let tasks = tasks_in(names, names.len() as int);
    let sorted = sorted_of(tasks);
    crate::table::sorting_orders_and_keeps(tasks);
    assert(names.take(names.len() as int) =~= names);
    broadcast use vstd::seq_lib::group_to_multiset_ensures;

    if sorted.len() > 0 {
        let first = sorted[0];
        assert(sorted.contains(first));
        assert(sorted.to_multiset().contains(first));
        assert(tasks.to_multiset().contains(first));
        assert(tasks.contains(first));
        lemma_tasks(names, names.len() as int, first);
    }
    if names.contains(x) && is_task(x) {
        lemma_tasks(names, names.len() as int, x);
        assert(tasks.to_multiset().contains(x));
        assert(sorted.to_multiset().contains(x));
        assert(sorted.contains(x));
        let k = choose|k: int| 0 <= k < sorted.len() && sorted[k] == x;
        assert(sorted[k] == x);
    }
}

/// Every line that a feeder prints is queued unless it is blank or was seen: after a
/// poll its hash is among those known, and it came from the record or from a line
/// that was queued.
pub proof fn every_new_line_is_queued(lines: Seq<Seq<char>>, seen: Set<u64>, n: int, i: int)
    requires
        0 <= i < n <= lines.len(),
        trimmed(lines[i]).len() > 0,
    ensures
        ({
            let (fresh, known) = fresh_upto(lines, seen, n);
            &&& known.contains(hash_of(trimmed(lines[i])))
            &&& seen.contains(hash_of(trimmed(lines[i]))) || exists|k: int|
                0 <= k < fresh.len() && hash_of(#[trigger] fresh[k]) == hash_of(trimmed(lines[i]))
            &&& forall|k: int|
                0 <= k < fresh.len() ==> (#[trigger] fresh[k]).len() > 0 && !seen.contains(
                    hash_of(fresh[k]),
                )
        }),
    decreases n,
{
    lemma_fresh_known(lines, seen, n, i);
    lemma_fresh_from(lines, seen, n, hash_of(trimmed(lines[i])));
}

proof fn lemma_fresh_from(lines: Seq<Seq<char>>, seen: Set<u64>, n: int, h: u64)
    requires
        0 <= n <= lines.len(),
    ensures
        ({
            let (fresh, known) = fresh_upto(lines, seen, n);
            &&& seen.contains(h) ==> known.contains(h)
            &&& known.contains(h) ==> seen.contains(h) || exists|k: int|
                0 <= k < fresh.len() && hash_of(#[trigger] fresh[k]) == h
            &&& forall|k: int|
                0 <= k < fresh.len() ==> (#[trigger] fresh[k]).len() > 0 && !seen.contains(
                    hash_of(fresh[k]),
                )
        }),
    decreases n,
{
    if n > 0 {
        lemma_fresh_from(lines, seen, n - 1, h);
        let line = trimmed(lines[n - 1]);
        lemma_fresh_from(lines, seen, n - 1, hash_of(line));
        let (before, was) = fresh_upto(lines, seen, n - 1);
        let (fresh, known) = fresh_upto(lines, seen, n);
        if line.len() > 0 && !was.contains(hash_of(line)) {
            assert(fresh[before.len() as int] == line);
            if known.contains(h) && !seen.contains(h) {
                if was.contains(h) {
                    let k = choose|k: int| 0 <= k < before.len() && hash_of(#[trigger] before[k]) == h;
                    assert(hash_of(fresh[k]) == h);
                } else {
                    assert(hash_of(fresh[before.len() as int]) == h);
                }
            }
            assert forall|k: int| 0 <= k < fresh.len() implies (#[trigger] fresh[k]).len() > 0
                && !seen.contains(hash_of(fresh[k])) by {
                if k < before.len() {
                    assert(fresh[k] == before[k]);
                }
            }
        }
    }
}

/// The time of day is the hour, the minute and the second, two digits each, on
/// whatever day.
pub proof fn the_clock_shows_the_time(day: nat, h: nat, m: nat, s: nat)
    requires
        h < 24,
        m < 60,
        s < 60,
    ensures
        clock(86_400 * day + 3600 * h + 60 * m + s) == two(h) + seq![':'] + two(m) + seq![':'] + two(
            s,
        ),
        two(h).len() == 2,
        two(m).len() == 2,
        two(s).len() == 2,
{
    reveal_strlit(":");
    reveal_strlit("0");
    assert(":"@ =~= seq![':']);
    let t: nat = 3600 * h + 60 * m + s;
    assert(86_400 * day + 3600 * h + 60 * m + s == 86_400 * day + t);
    assert((86_400 * day + t) % 86_400 == t);
    assert(t / 3600 == h);
    assert(t % 3600 == 60 * m + s);
    assert((t % 3600) / 60 == m);
    assert(t % 60 == s);
    lemma_two(h);
    lemma_two(m);
    lemma_two(s);
}

proof fn lemma_two(n: nat)
    requires
        n < 60,
    ensures
        two(n).len() == 2,
{
    reveal_strlit("0");
    reveal_with_fuel(decimal, 3);
}

/// A page follows its agent: it runs from its first turn on until it is done, shows
/// the turn and the context it is at, what it did last and its plan. What is streamed
/// does not show.
pub proof fn a_page_follows_its_agent(p: PaneV, t: u32, n: u64, x: Seq<char>, d: u8, now: Seq<char>)
    ensures
        pane_took(p, EvV::Turn(t), now) == (PaneV { running: true, turn: t, ..p }),
        pane_took(p, EvV::Ctx(n), now) == (PaneV { ctx: n, ..p }),
        pane_took(p, EvV::Plan(x), now) == (PaneV { plan: x, ..p }),
        pane_took(p, EvV::Delta(x), now) == p,
        pane_took(p, EvV::Action(d, x), now).last == x,
        pane_took(p, EvV::Action(d, x), now).running == p.running,
        pane_took(p, EvV::Result(d, x), now).running == p.running,
        pane_took(p, EvV::Result(d, x), now).last == p.last,
        !pane_took(p, EvV::Done(x), now).running,
        !pane_took(p, EvV::Report(x), now).running,
{
}

/// The lines of a page: an action, a result, a word said and the end each add a line
/// at the bottom, in the style that tells them apart; failures and the user's own
/// words stand out.
pub proof fn a_page_logs_what_happens(p: PaneV, x: Seq<char>, d: u8, now: Seq<char>)
    requires
        !x.contains('\n'),
        x.len() > 0,
        !now.contains('\n'),
    ensures
        pane_took(p, EvV::Action(d, x), now).log.last() == (Style::Act, "  · "@ + x),
        begins(x, "exit "@) || begins(x, "err"@) ==> pane_took(p, EvV::Result(d, x), now).log.last()
            == (Style::Failed, "    "@ + x),
        x[0] != 'e' && x[0] != 'm' && x[0] != '(' ==> pane_took(
            p,
            EvV::Result(d, x),
            now,
        ).log.last() == (Style::Dim, "    "@ + x),
        begins(x, "task: "@) ==> pane_took(p, EvV::Say(x), now).log.last() == (Style::User, x),
        x[0] != 't' && x[0] != 's' && x[0] != '(' ==> pane_took(p, EvV::Say(x), now).log.last() == (
            Style::Plain,
            x,
        ),
        pane_took(p, EvV::Done(x), now).log.last() == (Style::Dim, "── finished "@ + now + " ──"@),
{
    reveal_strlit("  · ");
    reveal_strlit("    ");
    reveal_strlit("── finished ");
    reveal_strlit(" ──");
    reveal_strlit("err");
    reveal_strlit("exit ");
    reveal_strlit("model error");
    reveal_strlit("(aborted");
    reveal_strlit("task: ");
    reveal_strlit("source task: ");
    reveal_strlit("(mid-run message)");
    lemma_one_line(p.log, Style::Act, "  · "@, x, Seq::empty());
    lemma_one_line(p.log, result_style(x), "    "@, x, Seq::empty());
    lemma_one_line(p.log, say_style(x), Seq::empty(), x, Seq::empty());
    assert("  · "@ + x + Seq::<char>::empty() =~= "  · "@ + x);
    assert("    "@ + x + Seq::<char>::empty() =~= "    "@ + x);
    assert(Seq::<char>::empty() + x + Seq::<char>::empty() =~= x);
    let q = pane_pushed(p, Style::Plain, "DONE: "@ + x);
    lemma_one_line(q.log, Style::Dim, "── finished "@, now, " ──"@);
    lemma_other_start(x, "err"@);
    lemma_other_start(x, "exit "@);
    lemma_other_start(x, "model error"@);
    lemma_other_start(x, "(aborted"@);
    lemma_other_start(x, "task: "@);
    lemma_other_start(x, "source task: "@);
    lemma_other_start(x, "(mid-run message)"@);
}

proof fn lemma_other_start(x: Seq<char>, p: Seq<char>)
    requires
        x.len() > 0,
        p.len() > 0,
    ensures
        x[0] != p[0] ==> !begins(x, p),
{
    if begins(x, p) {
        assert(x.subrange(0, p.len() as int)[0] == x[0]);
    }
}

proof fn lemma_one_line(
    log: Seq<(Style, Seq<char>)>,
    style: Style,
    a: Seq<char>,
    x: Seq<char>,
    b: Seq<char>,
)
    requires
        !a.contains('\n'),
        !x.contains('\n'),
        !b.contains('\n'),
        (a + x + b).len() > 0,
    ensures
        with_lines(log, style, lines_of(a + x + b)).last() == (style, a + x + b),
{
    let line = a + x + b;
    assert forall|i: int| 0 <= i < line.len() implies line[i] != '\n' by {
        if i < a.len() {
            assert(a.contains(line[i]));
        } else if i < a.len() + x.len() {
            assert(line[i] == x[i - a.len()]);
            assert(x.contains(line[i]));
        } else {
            assert(line[i] == b[i - a.len() - x.len()]);
            assert(b.contains(line[i]));
        }
    }
    text::lemma_lines_one(line);
    assert(seq![line].last() == line);
}

/// The log says of an event what it was; what is streamed, the context and the plan
/// are not logged.
pub proof fn events_are_logged(t: u32, d: u8, x: Seq<char>, n: Seq<char>, c: u64)
    requires
        !x.contains('\n'),
        x.len() > 0,
    ensures
        ev_line(EvV::Turn(t)) == Some("turn "@ + decimal(t as nat)),
        ev_line(EvV::Action(d, x)) == Some("· "@ + x),
        ev_line(EvV::Result(d, x)) == Some("  "@ + x),
        ev_line(EvV::Say(x)) == Some("S "@ + x),
        ev_line(EvV::Sub(n, x)) == Some("["@ + n + "] "@ + x),
        ev_line(EvV::SubDone(n)) == Some("["@ + n + "] done"@),
        ev_line(EvV::Report(x)) == Some(x),
        ev_line(EvV::Done(x)) == Some("DONE: "@ + x),
        ev_line(EvV::Delta(x)) is None,
        ev_line(EvV::Ctx(c)) is None,
        ev_line(EvV::Plan(x)) is None,
{
    text::lemma_lines_one(x);
    lemma_first_line(x);
}

proof fn lemma_first_line(x: Seq<char>)
    requires
        !x.contains('\n'),
        x.len() > 0,
    ensures
        first_line(x) == x,
{
    text::lemma_lines_one(x);
}

/// The keys that go through the fleet: forward visits every page in turn and starts
/// over after the last, Escape goes to the overview, and there up and down move the
/// selection by one, never past its ends.
pub proof fn keys_go_through_the_fleet(p: PagesV)
    requires
        p.page <= p.count,
        p.count < usize::MAX,
        p.selected < p.count,
    ensures
        paged(p, Key::Next).0.page as int == (p.page + 1) % (p.count + 1),
        paged(p, Key::Escape).0 == (PagesV { page: 0, ..p }),
        paged(p, Key::Interrupt).1 == AskV::Quit,
        p.page == 0 && p.selected > 0 ==> paged(p, Key::Up).0.selected == p.selected - 1,
        p.page == 0 && p.selected == 0 ==> paged(p, Key::Up).0 == p,
        p.page == 0 && p.selected + 1 < p.count ==> paged(p, Key::Down).0.selected == p.selected + 1,
        p.page == 0 && p.selected + 1 == p.count ==> paged(p, Key::Down).0 == p,
        p.page > 0 ==> paged(p, Key::Up).0 == p && paged(p, Key::Down).0 == p,
        p.page == 0 ==> paged(p, Key::Enter) == (
            PagesV { page: (p.selected + 1) as usize, ..p },
            AskV::Nothing,
        ),
        paged(p, Key::Other) == (p, AskV::Nothing),
{
    if p.page < p.count {
        vstd::arithmetic::div_mod::lemma_small_mod((p.page + 1) as nat, (p.count + 1) as nat);
    } else {
        vstd::arithmetic::div_mod::lemma_mod_self_0(p.count + 1);
    }
}

/// What is typed on an agent's page is sent to that agent, without the white space
/// at its ends; `/q` closes the screen, and a blank line sends nothing. The input
/// line is empty after it.
pub proof fn what_is_typed_is_sent(p: PagesV, line: Seq<char>, c: char)
    requires
        0 < p.page,
        line == trimmed(p.input),
    ensures
        paged(p, Key::Enter).0.input.len() == 0,
        paged(p, Key::Enter).0.page == p.page,
        line == "/q"@ ==> paged(p, Key::Enter).1 == AskV::Quit,
        line != "/q"@ && line.len() > 0 ==> paged(p, Key::Enter).1 == (AskV::Send {
            agent: (p.page - 1) as usize,
            line,
        }),
        line.len() == 0 ==> paged(p, Key::Enter).1 == AskV::Nothing,
        paged(p, Key::Char(c)).0.input == p.input + seq![c],
        paged(paged(p, Key::Char(c)).0, Key::Backspace).0 == p,
{
    reveal_strlit("");
    reveal_strlit("/q");
    assert(p.input.push(c) =~= p.input + seq![c]);
    assert(p.input.push(c).drop_last() =~= p.input);
}

/// The tab bar: the page that is shown stands in brackets, agents that run have a
/// star, and each tab follows the one before.
pub proof fn tabs_mark_what_is_shown(
    names: Seq<Seq<char>>,
    running: Seq<bool>,
    page: int,
    n: int,
)
    requires
        0 < n <= names.len(),
        names.len() == running.len(),
    ensures
        tabs_upto(names, running, 0, 0) == "[fleet]"@,
        page > 0 ==> tabs_upto(names, running, page, 0) == " fleet "@,
        begins(tabs_upto(names, running, page, n), tabs_upto(names, running, page, n - 1)),
        page == n && running[n - 1] ==> text::ends(
            tabs_upto(names, running, page, n),
            " ["@ + names[n - 1] + "*]"@,
        ),
        page == n && !running[n - 1] ==> text::ends(
            tabs_upto(names, running, page, n),
            " ["@ + names[n - 1] + "]"@,
        ),
        page != n && running[n - 1] ==> text::ends(
            tabs_upto(names, running, page, n),
            "  "@ + names[n - 1] + "* "@,
        ),
        page != n && !running[n - 1] ==> text::ends(
            tabs_upto(names, running, page, n),
            "  "@ + names[n - 1] + " "@,
        ),
{
    reveal_strlit("");
    reveal_strlit("*");
    reveal_strlit("]");
    reveal_strlit("*]");
    reveal_strlit(" ");
    reveal_strlit("* ");
    let before = tabs_upto(names, running, page, n - 1);
    let all = tabs_upto(names, running, page, n);
    let name = names[n - 1];
    let t = tab(name, running[n - 1], page == n);
    assert(all =~= before + t);
    assert(all.subrange(0, before.len() as int) =~= before);
    assert(all.subrange(all.len() - t.len(), all.len() as int) =~= t);
    assert("*"@ + "]"@ =~= "*]"@);
    assert("*"@ + " "@ =~= "* "@);
    assert(" ["@ + name + "*"@ + "]"@ =~= " ["@ + name + "*]"@);
    assert(" ["@ + name + ""@ + "]"@ =~= " ["@ + name + "]"@);
    assert("  "@ + name + "*"@ + " "@ =~= "  "@ + name + "* "@);
    assert("  "@ + name + ""@ + " "@ =~= "  "@ + name + " "@);
}

/// The overview has a row for every agent, two rows apart, in the style of what it
/// does, and the one that is selected is marked.
pub proof fn the_overview_shows_every_agent(
    names: Seq<Seq<char>>,
    panes: Seq<PaneV>,
    selected: int,
    spin: int,
    thousands: Seq<Seq<char>>,
    w: int,
    i: int,
)
    requires
        w >= 30,
        0 <= i < names.len(),
        panes.len() == names.len(),
    ensures
        ({
            let body = overview_body(names, panes, selected, spin, thousands, w);
            &&& body.len() == names.len()
            &&& body[i].0 == 2 + 2 * i
            &&& panes[i].running ==> body[i].1 == Style::Act
            &&& !panes[i].running ==> body[i].1 == Style::Dim
            &&& body[i].2.len() > 0
            &&& body[i].2[0] == '>' <==> i == selected
            &&& body[i].2.len() < w
            &&& names[i].len() <= 14 ==> body[i].2.subrange(2, 2int + names[i].len()) == names[i]
        }),
{
    reveal_strlit(">");
    reveal_strlit(" ");
    let mark = if i == selected {
        ">"@
    } else {
        " "@
    };
    let state = overview_state(panes[i], spin, thousands[i]);
    let line = mark + " "@ + padded(names[i], 14) + " "@ + state + "  "@ + panes[i].last;
    assert(mark.len() == 1);
    assert(line.len() >= 16);
    assert(line[0] == mark[0]);
    let shown = first_chars(line, w - 1);
    assert(shown[0] == line[0]);
    if names[i].len() <= 14 {
        assert(shown.subrange(2, 2int + names[i].len()) =~= names[i]);
    }
}

/// What an agent is at, in the overview and on its page: while it runs the turn, and
/// either way the context, in thousands from one thousand on.
pub proof fn contexts_show_in_thousands(n: u64, thousands: Seq<char>)
    ensures
        n < 1000 ==> ctx_text(n, thousands) == decimal(n as nat) + seq!['t'],
        n >= 1000 ==> ctx_text(n, thousands) == thousands + seq!['k'],
{
    reveal_strlit("k");
    reveal_strlit("t");
    assert("k"@ =~= seq!['k']);
    assert("t"@ =~= seq!['t']);
}

/// An agent is announced by its kind, its name, its place and its feeder.
pub proof fn agents_are_announced(name: Seq<char>, a: AgentCfg)
    ensures
        a.persistent && a.source is None ==> announced(name, a) == "swift: persistent "@ + name
            + " @ "@ + a.root@,
        !a.persistent && a.source is None ==> announced(name, a) == "swift: one-shot  "@ + name
            + " @ "@ + a.root@,
        a.persistent && a.source is Some ==> announced(name, a) == "swift: persistent "@ + name
            + " @ "@ + a.root@ + " ← `"@ + a.source->0@ + "`"@,
        !a.persistent && a.source is Some ==> announced(name, a) == "swift: one-shot  "@ + name
            + " @ "@ + a.root@ + " ← `"@ + a.source->0@ + "`"@,
{
    reveal_strlit("swift: ");
    reveal_strlit("persistent");
    reveal_strlit("one-shot ");
    reveal_strlit(" ");
    reveal_strlit("swift: persistent ");
    reveal_strlit("swift: one-shot  ");
    reveal_strlit("");
    assert("swift: "@ + "persistent"@ + " "@ =~= "swift: persistent "@);
    assert("swift: "@ + "one-shot "@ + " "@ =~= "swift: one-shot  "@);
    let kind = if a.persistent {
        "persistent"@
    } else {
        "one-shot "@
    };
    let start = "swift: "@ + kind + " "@;
    match a.source {
        Some(s) => {
            assert(announced(name, a) =~= start + name + " @ "@ + a.root@ + " ← `"@ + s@ + "`"@);
        },
        None => {
            assert(announced(name, a) =~= start + name + " @ "@ + a.root@);
        },
    }
}

/// The tab bar is as wide as the screen.
pub proof fn the_tab_bar_fills_the_row(names: Seq<Seq<char>>, running: Seq<bool>, page: int, w: int)
    requires
        w >= 0,
    ensures
        bar_text(names, running, page, w).len() == w,
        ({
            let tabs = tabs_upto(names, running, page, names.len() as int);
            tabs.len() <= w ==> begins(bar_text(names, running, page, w), tabs)
        }),
{
    let tabs = tabs_upto(names, running, page, names.len() as int);
    let part = first_chars(tabs, w);
    screen::texts_are_fitted(part, Seq::empty(), w);
    if tabs.len() <= w {
        let bar = bar_text(names, running, page, w);
        assert(bar.subrange(0, tabs.len() as int) =~= tabs);
    }
}

} // verus!
