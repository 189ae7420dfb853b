//! Split-screen TUI, styled like a chat: your prompt echoed as "> ...", the
//! agent's answer as plain text, all machinery (actions, results, stats)
//! dimmed. The bottom pane is the live model stream; on a wide screen a column
//! at the side has the plan and the live subagents. What stands here is the
//! state behind the screen, what keys and events do to it, and what it shows.

use crate::agent::Ev;
use crate::agent::EvV;
use crate::screen;
use crate::screen::first_chars;
use crate::screen::last_chars;
use crate::screen::last_lines;
use crate::screen::padded;
use crate::screen::placed;
use crate::screen::run_of;
use crate::screen::stacked;
use crate::screen::styled;
use crate::screen::visible;
use crate::screen::Placed;
use crate::screen::Style;
use crate::table::row_of;
use crate::text;
use crate::text::byte_len;
use crate::text::decimal;
use crate::text::first_line;
use crate::text::lines_of;
use crate::text::pairs;
use crate::text::stripped;
use crate::text::texts;
use crate::text::trimmed;
use crate::tools::clip;
use crate::tools::clipped;
use vstd::prelude::*;

verus! {

/// How many lines the session log keeps.
pub const LOG_CAP: usize = 4000;

/// How much of a line it keeps, in bytes.
pub const LINE_CAP: usize = 600;

pub struct App {
    pub log: Vec<(Style, String)>,
    /// The model's stream in this turn.
    pub live: String,
    pub input: String,
    pub root: String,
    pub running: bool,
    pub stream_on: bool,
    /// How many rows the log is scrolled up.
    pub scroll: usize,
    pub turn: u32,
    pub last_action: String,
    /// Billed size of the last request.
    pub ctx: u64,
    pub plan: String,
    /// The subagents that are out, each with its latest activity.
    pub subs: Vec<(String, String)>,
    pub quit: bool,
}

#[verifier::ext_equal]
pub struct AppV {
    pub log: Seq<(Style, Seq<char>)>,
    pub live: Seq<char>,
    pub input: Seq<char>,
    pub root: Seq<char>,
    pub running: bool,
    pub stream_on: bool,
    pub scroll: usize,
    pub turn: u32,
    pub last_action: Seq<char>,
    pub ctx: u64,
    pub plan: Seq<char>,
    pub subs: Seq<(Seq<char>, Seq<char>)>,
    pub quit: bool,
}

impl View for App {
    type V = AppV;

    open spec fn view(&self) -> AppV {
        AppV {
            log: styled(self.log@),
            live: self.live@,
            input: self.input@,
            root: self.root@,
            running: self.running,
            stream_on: self.stream_on,
            scroll: self.scroll,
            turn: self.turn,
            last_action: self.last_action@,
            ctx: self.ctx,
            plan: self.plan@,
            subs: pairs(self.subs@),
            quit: self.quit,
        }
    }
}

/// The state with one more line; the log then shows its end.
pub open spec fn pushed(a: AppV, style: Style, line: Seq<char>) -> AppV {
    AppV {
        log: last_lines(a.log.push((style, clipped(line, LINE_CAP as int))), LOG_CAP as int),
        scroll: 0,
        ..a
    }
}

/// The state with several plain lines.
pub open spec fn pushed_all(a: AppV, lines: Seq<Seq<char>>) -> AppV
    decreases lines.len(),
{
    if lines.len() == 0 {
        a
    } else {
        pushed(pushed_all(a, lines.drop_last()), Style::Plain, lines.last())
    }
}

/// The state once a run has ended with a message.
pub open spec fn run_over(a: AppV, msg: Seq<char>) -> AppV {
    AppV {
        running: false,
        live: ""@,
        last_action: ""@,
        subs: Seq::empty(),
        ..pushed(pushed_all(a, lines_of(msg)), Style::Plain, ""@)
    }
}

/// Two spaces for each level.
pub open spec fn pad_of(depth: u8) -> Seq<char> {
    run_of(' ', 2 * depth)
}

/// The subagents that are out, once one of them has done something.
pub open spec fn with_activity(
    subs: Seq<(Seq<char>, Seq<char>)>,
    name: Seq<char>,
    line: Seq<char>,
) -> Seq<(Seq<char>, Seq<char>)> {
    match row_of(subs, name, 0) {
        Some(i) => subs.update(i, (name, line)),
        None => subs.push((name, line)),
    }
}

/// The first `n` subagents that are out, without those of one name.
pub open spec fn others(subs: Seq<(Seq<char>, Seq<char>)>, name: Seq<char>, n: int) -> Seq<
    (Seq<char>, Seq<char>),
>
    decreases n,
{
    if n <= 0 {
        Seq::empty()
    } else if subs[n - 1].0 == name {
        others(subs, name, n - 1)
    } else {
        others(subs, name, n - 1).push(subs[n - 1])
    }
}

/// The state after an event, and whether that ended the run.
pub open spec fn took(a: AppV, ev: EvV) -> (AppV, bool) {
    match ev {
        EvV::Turn(t) => (AppV { turn: t, live: ""@, ..a }, false),
        EvV::Delta(d) => (AppV { live: a.live + d, ..a }, false),
        EvV::Action(depth, act) => (
            pushed(
                AppV {
                    last_action: if depth == 0 {
                        act
                    } else {
                        "[sub] "@ + act
                    },
                    ..a
                },
                Style::Dim,
                "  "@ + pad_of(depth) + "· "@ + act,
            ),
            false,
        ),
        EvV::Result(depth, r) => (
            pushed(a, Style::Dim, "  "@ + pad_of(depth) + "  "@ + r),
            false,
        ),
        EvV::Say(t) => (pushed(a, Style::Plain, t), false),
        EvV::Report(r) => (pushed(a, Style::Dim, "  "@ + r), false),
        EvV::Done(msg) => (run_over(a, msg), true),
        EvV::Ctx(n) => (AppV { ctx: n, ..a }, false),
        EvV::Plan(p) => (AppV { plan: p, ..a }, false),
        EvV::Sub(name, line) => (
            AppV {
                subs: with_activity(a.subs, name, first_line(line)),
                ..pushed(a, Style::Dim, "  ["@ + name + "] "@ + first_line(line))
            },
            false,
        ),
        EvV::SubDone(name) => (
            AppV {
                subs: others(a.subs, name, a.subs.len() as int),
                ..pushed(a, Style::Dim, "  ["@ + name + "] finished"@)
            },
            false,
        ),
    }
}

/// A key that means something.
pub enum Key {
    /// Ctrl-C.
    Interrupt,
    Escape,
    /// F2.
    ToggleStream,
    PageUp,
    PageDown,
    Backspace,
    Enter,
    Char(char),
    Other,
}

/// What a key asks to be done outside.
pub enum Ask {
    Nothing,
    /// Stop the run after this turn.
    Stop,
    /// Look for a directory; the answer goes to `moved`.
    Cd { path: String, typed: String },
    /// Hand a message to the running agent.
    Deliver { message: String },
    /// Start a run.
    Start { task: String },
}

#[verifier::ext_equal]
pub enum AskV {
    Nothing,
    Stop,
    Cd { path: Seq<char>, typed: Seq<char> },
    Deliver { message: Seq<char> },
    Start { task: Seq<char> },
}

impl View for Ask {
    type V = AskV;

    open spec fn view(&self) -> AskV {
        match *self {
            Ask::Nothing => AskV::Nothing,
            Ask::Stop => AskV::Stop,
            Ask::Cd { path, typed } => AskV::Cd { path: path@, typed: typed@ },
            Ask::Deliver { message } => AskV::Deliver { message: message@ },
            Ask::Start { task } => AskV::Start { task: task@ },
        }
    }
}

/// A request to stop, which only a running agent takes.
pub open spec fn stop_asked(a: AppV) -> (AppV, AskV) {
    if a.running {
        (pushed(a, Style::Dim, "  (stopping after this turn)"@), AskV::Stop)
    } else {
        (a, AskV::Nothing)
    }
}

/// The input line, entered: a command, a message to the running agent, or a
/// new task.
pub open spec fn submitted(a: AppV) -> (AppV, AskV) {
    let line = trimmed(a.input);
    let b = AppV { input: ""@, ..a };
    if line.len() == 0 {
        (b, AskV::Nothing)
    } else if stripped(line, ":cd "@) is Some {
        let rest = stripped(line, ":cd "@)->0;
        if b.running {
            (
                pushed(b, Style::Dim, "  (busy — :cd after the run finishes)"@),
                AskV::Nothing,
            )
        } else {
            (b, AskV::Cd { path: trimmed(rest), typed: rest })
        }
    } else if line == ":q"@ {
        (AppV { quit: true, ..b }, AskV::Nothing)
    } else if b.running {
        (
            pushed(
                pushed(b, Style::User, "> "@ + line),
                Style::Dim,
                "  (delivered to the agent — lands next turn)"@,
            ),
            AskV::Deliver { message: line },
        )
    } else {
        (
            AppV { running: true, turn: 0, ..pushed(b, Style::User, "> "@ + line) },
            AskV::Start { task: line },
        )
    }
}

/// What a key does.
pub open spec fn pressed(a: AppV, key: Key) -> (AppV, AskV) {
    match key {
        Key::Interrupt => if a.running {
            stop_asked(a)
        } else {
            (AppV { quit: true, ..a }, AskV::Nothing)
        },
        Key::Escape => stop_asked(a),
        Key::ToggleStream => (AppV { stream_on: !a.stream_on, ..a }, AskV::Nothing),
        Key::PageUp => (
            AppV {
                scroll: if a.scroll + 5 < a.log.len() {
                    (a.scroll + 5) as usize
                } else {
                    a.log.len() as usize
                },
                ..a
            },
            AskV::Nothing,
        ),
        Key::PageDown => (
            AppV {
                scroll: if a.scroll > 5 {
                    (a.scroll - 5) as usize
                } else {
                    0
                },
                ..a
            },
            AskV::Nothing,
        ),
        Key::Backspace => (
            AppV {
                input: if a.input.len() > 0 {
                    a.input.drop_last()
                } else {
                    a.input
                },
                ..a
            },
            AskV::Nothing,
        ),
        Key::Enter => submitted(a),
        Key::Char(c) => (AppV { input: a.input.push(c), ..a }, AskV::Nothing),
        Key::Other => (a, AskV::Nothing),
    }
}

/// The state once a directory was looked for.
pub open spec fn moved_to(a: AppV, typed: Seq<char>, found: Option<Seq<char>>) -> AppV {
    match found {
        Some(p) => AppV {
            root: p,
            ..pushed(a, Style::Dim, "  root → "@ + p + " (new session)"@)
        },
        None => pushed(a, Style::Dim, "  no such directory: "@ + typed),
    }
}

impl App {
    /// A screen before any task.
    pub fn new(model: &str, root: String) -> (r: App)
        ensures
            r@ == (AppV {
                log: seq![
                    (Style::Dim, "haste · "@ + model@ + " · "@ + root@),
                    (
                        Style::Dim,
                        "Enter task · :cd <path> · F2 stream · Esc stop · :q quit"@,
                    ),
                    (Style::Dim, ""@),
                ],
                live: ""@,
                input: ""@,
                root: root@,
                running: false,
                stream_on: true,
                scroll: 0,
                turn: 0,
                last_action: ""@,
                ctx: 0,
                plan: ""@,
                subs: Seq::empty(),
                quit: false,
            }),
    {
        let mut head = "haste · ".to_string();
        head.append(model);
        head.append(" · ");
        head.append(&root);
        let log = vec![
            (Style::Dim, head),
            (
                Style::Dim,
                "Enter task · :cd <path> · F2 stream · Esc stop · :q quit".to_string(),
            ),
            (Style::Dim, "".to_string()),
        ];
        let r = App {
            log,
            live: "".to_string(),
            input: "".to_string(),
            root,
            running: false,
            stream_on: true,
            scroll: 0,
            turn: 0,
            last_action: "".to_string(),
            ctx: 0,
            plan: "".to_string(),
            subs: Vec::new(),
            quit: false,
        };
        assert(r@.subs =~= Seq::<(Seq<char>, Seq<char>)>::empty());
        assert(r@.log =~= seq![
            (Style::Dim, "haste · "@ + model@ + " · "@ + root@),
            (Style::Dim, "Enter task · :cd <path> · F2 stream · Esc stop · :q quit"@),
            (Style::Dim, ""@),
        ]);
        r
    }

    /// Adds a line to the log.
    pub fn push(&mut self, style: Style, line: &str)
        ensures
            final(self)@ == pushed(old(self)@, style, line@),
    {
        let shown = clip(line, LINE_CAP);
        screen::add_line(&mut self.log, style, shown, LOG_CAP);
        self.scroll = 0;
    }

    /// Ends a run with a message.
    pub fn finish_run(&mut self, msg: &str)
        ensures
            final(self)@ == run_over(old(self)@, msg@),
    {
        let lines = text::lines(msg);
        let ghost a0 = self@;
        let ghost all = lines_of(msg@);
        let mut i: usize = 0;
        assert(all.take(0) =~= Seq::<Seq<char>>::empty());
        while i < lines.len()
            invariant
                i <= lines@.len(),
                all == texts(lines@),
                self@ == pushed_all(a0, all.take(i as int)),
            decreases lines@.len() - i,
        {
            assert(all.take(i + 1).drop_last() =~= all.take(i as int));
            assert(all.take(i + 1).last() == lines@[i as int]@);
            self.push(Style::Plain, &lines[i]);
            i = i + 1;
        }
        assert(all.take(all.len() as int) =~= all);
        self.push(Style::Plain, "");
        self.running = false;
        self.live = "".to_string();
        self.last_action = "".to_string();
        self.subs = Vec::new();
        assert(self@.subs =~= Seq::<(Seq<char>, Seq<char>)>::empty());
    }

    /// Takes in an event of the running agent. Returns whether it ended the
    /// run.
    pub fn take(&mut self, ev: Ev) -> (over: bool)
        ensures
            (final(self)@, over) == took(old(self)@, ev@),
    {
        match ev {
            Ev::Turn(t) => {
                self.turn = t;
                self.live = "".to_string();
                false
            },
            Ev::Delta(d) => {
                self.live.append(&d);
                false
            },
            Ev::Action(depth, act) => {
                self.last_action = if depth == 0 {
                    act.clone()
                } else {
                    let mut t = "[sub] ".to_string();
                    t.append(&act);
                    t
                };
                let mut line = "  ".to_string();
                let pad = screen::repeated(' ', 2 * depth as usize);
                line.append(&pad);
                line.append("· ");
                line.append(&act);
                self.push(Style::Dim, &line);
                false
            },
            Ev::Result(depth, r) => {
                let mut line = "  ".to_string();
                let pad = screen::repeated(' ', 2 * depth as usize);
                line.append(&pad);
                line.append("  ");
                line.append(&r);
                self.push(Style::Dim, &line);
                false
            },
            Ev::Say(t) => {
                self.push(Style::Plain, &t);
                false
            },
            Ev::Report(r) => {
                let mut line = "  ".to_string();
                line.append(&r);
                self.push(Style::Dim, &line);
                false
            },
            Ev::Done(msg) => {
                self.finish_run(&msg);
                true
            },
            Ev::Ctx(n) => {
                self.ctx = n;
                false
            },
            Ev::Plan(p) => {
                self.plan = p;
                false
            },
            Ev::Sub(name, l) => {
                let mut line = "  [".to_string();
                line.append(&name);
                line.append("] ");
                let (first, _n) = text::line_count(&l);
                line.append(&first);
                self.push(Style::Dim, &line);
                self.active(name, first);
                false
            },
            Ev::SubDone(name) => {
                let mut line = "  [".to_string();
                line.append(&name);
                line.append("] finished");
                self.push(Style::Dim, &line);
                self.forget(&name);
                false
            },
        }
    }

    fn active(&mut self, name: String, line: String)
        ensures
            final(self)@ == (AppV {
                subs: with_activity(old(self)@.subs, name@, line@),
                ..old(self)@
            }),
    {
        let ghost subs = pairs(self.subs@);
        let mut i: usize = 0;
        while i < self.subs.len() && !text::same(&self.subs[i].0, &name)
            invariant
                i <= self.subs@.len(),
                subs == pairs(self.subs@),
                row_of(subs, name@, 0) == row_of(subs, name@, i as int),
            decreases self.subs@.len() - i,
        {
            assert(subs[i as int] == (self.subs@[i as int].0@, self.subs@[i as int].1@));
            i = i + 1;
        }
        let row = (name, line);
        if i < self.subs.len() {
            assert(subs[i as int] == (self.subs@[i as int].0@, self.subs@[i as int].1@));
            self.subs[i] = row;
            assert(pairs(self.subs@) =~= subs.update(i as int, (row.0@, row.1@)));
        } else {
            self.subs.push(row);
            assert(pairs(self.subs@) =~= subs.push((row.0@, row.1@)));
        }
    }

    fn forget(&mut self, name: &str)
        ensures
            final(self)@ == (AppV {
                subs: others(old(self)@.subs, name@, old(self)@.subs.len() as int),
                ..old(self)@
            }),
    {
        let ghost subs = pairs(self.subs@);
        let mut left: Vec<(String, String)> = Vec::new();
        let mut i: usize = 0;
        assert(pairs(left@) =~= Seq::<(Seq<char>, Seq<char>)>::empty());
        while i < self.subs.len()
            invariant
                i <= self.subs@.len(),
                subs == pairs(self.subs@),
                pairs(left@) == others(subs, name@, i as int),
            decreases self.subs@.len() - i,
        {
            assert(subs[i as int] == (self.subs@[i as int].0@, self.subs@[i as int].1@));
            if !text::same(&self.subs[i].0, name) {
                let row = (self.subs[i].0.clone(), self.subs[i].1.clone());
                proof {
                    text::lemma_pairs_push(left@, row);
                }
                left.push(row);
            }
            i = i + 1;
        }
        self.subs = left;
    }

    fn request_stop(&mut self) -> (ask: Ask)
        ensures
            (final(self)@, ask@) == stop_asked(old(self)@),
    {
        if self.running {
            self.push(Style::Dim, "  (stopping after this turn)");
            Ask::Stop
        } else {
            Ask::Nothing
        }
    }

    fn submit(&mut self) -> (ask: Ask)
        ensures
            (final(self)@, ask@) == submitted(old(self)@),
    {
        let line = text::trim(&self.input);
        self.input = "".to_string();
        if text::empty(&line) {
            return Ask::Nothing;
        }
        if let Some(rest) = text::strip_prefix(&line, ":cd ") {
            if self.running {
                self.push(Style::Dim, "  (busy — :cd after the run finishes)");
                return Ask::Nothing;
            }
            return Ask::Cd { path: text::trim(&rest), typed: rest };
        }
        if text::same(&line, ":q") {
            self.quit = true;
            return Ask::Nothing;
        }
        let mut shown = "> ".to_string();
        shown.append(&line);
        self.push(Style::User, &shown);
        if self.running {
            self.push(Style::Dim, "  (delivered to the agent — lands next turn)");
            return Ask::Deliver { message: line };
        }
        self.running = true;
        self.turn = 0;
        Ask::Start { task: line }
    }

    /// Takes in a key.
    pub fn key(&mut self, key: Key) -> (ask: Ask)
        ensures
            (final(self)@, ask@) == pressed(old(self)@, key),
    {
        match key {
            Key::Interrupt => {
                if self.running {
                    return self.request_stop();
                }
                self.quit = true;
            },
            Key::Escape => {
                return self.request_stop();
            },
            Key::ToggleStream => {
                self.stream_on = !self.stream_on;
            },
            Key::PageUp => {
                let n = self.log.len();
                self.scroll = if n > 5 && self.scroll < n - 5 {
                    self.scroll + 5
                } else {
                    n
                };
            },
            Key::PageDown => {
                self.scroll = if self.scroll > 5 {
                    self.scroll - 5
                } else {
                    0
                };
            },
            Key::Backspace => {
                let v = text::chars_of(&self.input);
                if v.len() > 0 {
                    assert(v@.subrange(0, v@.len() - 1) =~= self.input@.drop_last());
                    self.input = text::text_between(&v, 0, v.len() - 1);
                }
            },
            Key::Enter => {
                return self.submit();
            },
            Key::Char(c) => {
                self.input.push(c);
            },
            Key::Other => {},
        }
        Ask::Nothing
    }

    /// Lands the answer to `Ask::Cd`: the directory, where there is one.
    pub fn moved(&mut self, typed: &str, found: Option<String>)
        ensures
            final(self)@ == moved_to(old(self)@, typed@, text::opt_text(found)),
    {
        match found {
            Some(p) => {
                let mut line = "  root → ".to_string();
                line.append(&p);
                line.append(" (new session)");
                self.push(Style::Dim, &line);
                self.root = p;
            },
            None => {
                let mut line = "  no such directory: ".to_string();
                line.append(typed);
                self.push(Style::Dim, &line);
            },
        }
    }
}

// ---------------------------------------------------------------------------
// What the screen shows
// ---------------------------------------------------------------------------

/// How many rows the stream needs for its first `n` lines.
pub open spec fn rows_needed(lines: Seq<Seq<char>>, w: int, n: int) -> int
    decreases n,
{
    if n <= 0 {
        0
    } else {
        rows_needed(lines, w, n - 1) + 1 + byte_len(lines[n - 1]) as int / w
    }
}

/// The lines of the stream.
pub open spec fn dim_lines(lines: Seq<Seq<char>>) -> Seq<(Style, Seq<char>)> {
    lines.map_values(|l: Seq<char>| (Style::Dim, l))
}

/// How many rows the stream pane takes: only while something is streaming, as
/// many as its content needs, and at most half the screen.
pub open spec fn stream_height(a: AppV, w: int, usable: int) -> int {
    let n = rows_needed(lines_of(a.live), w - 1, lines_of(a.live).len() as int);
    if a.stream_on && a.running && n > 0 {
        if n + 1 < usable / 2 {
            n + 1
        } else {
            usable / 2
        }
    } else {
        0
    }
}

/// The title of the stream pane.
pub open spec fn stream_title(w: int) -> Seq<char> {
    first_chars(
        "── agent stream (F2 hides) "@ + run_of(
            '─',
            if w > 28 {
                w - 28
            } else {
                1
            },
        ),
        w,
    )
}

/// What the agent is doing.
pub open spec fn state_text(a: AppV, secs: Seq<char>) -> Seq<char> {
    if a.running {
        "turn "@ + decimal(a.turn as nat) + " · "@ + secs + "s"@ + (if a.last_action.len() == 0 {
            ""@
        } else {
            " · "@ + a.last_action
        })
    } else {
        "idle"@
    }
}

/// The status bar.
pub open spec fn status_text(a: AppV, secs: Seq<char>, w: int) -> Seq<char> {
    padded(
        first_chars(
            " "@ + a.root + " · "@ + state_text(a, secs) + " · stream "@ + (if a.stream_on {
                "on"@
            } else {
                "off"@
            }) + " "@,
            w,
        ),
        w,
    )
}

/// The rows above the status bar: the log, and the stream pane while there is
/// one. Two rows above the bar stay empty.
pub open spec fn body_of(a: AppV, w: int, h: int) -> Seq<(int, Style, Seq<char>)> {
    let stream_h = stream_height(a, w, h - 4);
    let log_h = h - 4 - stream_h;
    let shown = visible(a.log, w - 1, a.scroll as int, log_h);
    let top = stacked(shown, log_h - shown.len());
    if stream_h > 0 {
        let live = visible(dim_lines(lines_of(a.live)), w - 1, 0, stream_h - 1);
        top.push((log_h, Style::Dim, stream_title(w))) + stacked(live, log_h + 1)
    } else {
        top
    }
}

/// How wide the side column is.
pub const SIDE_WIDTH: usize = 30;

/// How wide a screen has to be for it.
pub const SIDE_FROM: usize = 80;

/// What one subagent is doing.
pub open spec fn sub_text(p: (Seq<char>, Seq<char>)) -> Seq<char> {
    "["@ + p.0 + "] "@ + p.1
}

/// The side column: the plan, and the subagents that are out.
pub open spec fn side_lines(a: AppV) -> Seq<Seq<char>> {
    lines_of(a.plan) + a.subs.map_values(|p: (Seq<char>, Seq<char>)| sub_text(p))
}

/// The rows of the side column, on a screen that is wide enough.
pub open spec fn side_of(a: AppV, w: int, h: int) -> Seq<Seq<char>> {
    if w < SIDE_FROM {
        Seq::empty()
    } else {
        let all = side_lines(a);
        all.take(
            if all.len() < h - 4 {
                all.len() as int
            } else {
                h - 4
            },
        ).map_values(|l: Seq<char>| first_chars(l, SIDE_WIDTH as int))
    }
}

/// How wide the log and the stream are beside it.
pub open spec fn body_width(a: AppV, w: int, h: int) -> int {
    if side_of(a, w, h).len() == 0 {
        w
    } else {
        w - SIDE_WIDTH - 1
    }
}

/// What is drawn.
pub struct Frame {
    pub body: Vec<Placed>,
    /// The side column, from the first row down, and where it starts.
    pub side: Vec<String>,
    pub side_at: usize,
    /// The status bar, on the row before the last.
    pub status: String,
    /// The input line, on the last row.
    pub input: String,
}

fn stream_rows(live: &Vec<String>, w: usize) -> (n: u128)
    requires
        w > 0,
    ensures
        n == rows_needed(texts(live@), w as int, live@.len() as int),
        n < u128::MAX,
{
    let mut n: u128 = 0;
    let mut i: usize = 0;
    while i < live.len()
        invariant
            i <= live.len(),
            w > 0,
            n == rows_needed(texts(live@), w as int, i as int),
            n <= i * (usize::MAX + 1),
        decreases live@.len() - i,
    {
        let b = text::bytes_in(&live[i]);
        let q: usize = b / w;
        assert(texts(live@)[i as int] == live@[i as int]@);
        proof {
            lemma_rows_bound(i as int + 1, usize::MAX as int);
            assert((i + 1) * (usize::MAX + 1) == i * (usize::MAX + 1) + usize::MAX + 1)
                by (nonlinear_arith);
        }
        n = n + 1 + q as u128;
        i = i + 1;
    }
    proof {
        lemma_rows_bound(i as int, usize::MAX as int);
    }
    n
}

proof fn lemma_rows_bound(i: int, m: int)
    by (nonlinear_arith)
    requires
        0 <= i <= m,
        m <= u64::MAX,
    ensures
        i * (m + 1) <= 0xffff_ffff_ffff_ffff_0000_0000_0000_0000,
{
}

impl App {
    fn status(&self, secs: &str, w: usize) -> (r: String)
        ensures
            r@ == status_text(self@, secs@, w as int),
    {
        let mut state = "idle".to_string();
        if self.running {
            state = "turn ".to_string();
            let n = text::dec(self.turn as u64);
            state.append(&n);
            state.append(" · ");
            state.append(secs);
            state.append("s");
            let mut act = "".to_string();
            if !text::empty(&self.last_action) {
                act = " · ".to_string();
                act.append(&self.last_action);
            }
            state.append(&act);
        }
        let mut t = " ".to_string();
        t.append(&self.root);
        t.append(" · ");
        t.append(&state);
        t.append(" · stream ");
        t.append(
            if self.stream_on {
                "on"
            } else {
                "off"
            },
        );
        t.append(" ");
        screen::pad(&screen::take_chars(&t, w), w)
    }

    /// What the screen shows; nothing on a screen that is too small. `secs` is
    /// how long the run has taken.
    pub fn frame(&self, secs: &str, w: usize, h: usize) -> (r: Option<Frame>)
        ensures
            match r {
                Some(f) => {
                    &&& h >= 6 && w >= 20
                    &&& texts(f.side@) == side_of(self@, w as int, h as int)
                    &&& f.side_at == w - SIDE_WIDTH || f.side@.len() == 0
                    &&& placed(f.body@) == body_of(
                        self@,
                        body_width(self@, w as int, h as int),
                        h as int,
                    )
                    &&& f.status@ == status_text(self@, secs@, w as int)
                    &&& f.input@ == last_chars("> "@ + self@.input, w as int)
                },
                None => h < 6 || w < 20,
            },
    {
        if h < 6 || w < 20 {
            return None;
        }
        let side = self.side(w, h);
        let full = w;
        let w: usize = if side.len() == 0 {
            full
        } else {
            full - SIDE_WIDTH - 1
        };
        let body = self.body(w, h);
        let mut prompt = "> ".to_string();
        prompt.append(&self.input);
        Some(
            Frame {
                body,
                side,
                side_at: if full == w {
                    full
                } else {
                    full - SIDE_WIDTH
                },
                status: self.status(secs, full),
                input: screen::end_chars(&prompt, full),
            },
        )
    }

    fn side(&self, w: usize, h: usize) -> (r: Vec<String>)
        requires
            h >= 6,
        ensures
            texts(r@) == side_of(self@, w as int, h as int),
            r@.len() > 0 ==> w >= SIDE_FROM,
    {
        let mut r: Vec<String> = Vec::new();
        if w < SIDE_FROM {
            assert(texts(r@) =~= Seq::<Seq<char>>::empty());
            return r;
        }
        let plan = text::lines(&self.plan);
        let ghost all = side_lines(self@);
        let most: usize = h - 4;
        let mut i: usize = 0;
        while i < plan.len() && i < most
            invariant
                i <= plan@.len(),
                i <= most,
                texts(plan@) == lines_of(self@.plan),
                all == side_lines(self@),
                r@.len() == i,
                forall|k: int|
                    0 <= k < i ==> (#[trigger] r@[k])@ == first_chars(all[k], SIDE_WIDTH as int),
            decreases plan@.len() - i,
        {
            assert(all[i as int] == plan@[i as int]@);
            let row = screen::take_chars(&plan[i], SIDE_WIDTH);
            r.push(row);
            i = i + 1;
        }
        let mut j: usize = 0;
        while j < self.subs.len() && r.len() < most
            invariant
                j <= self.subs@.len(),
                i <= plan@.len(),
                texts(plan@) == lines_of(self@.plan),
                all == side_lines(self@),
                j > 0 ==> i == plan@.len(),
                r@.len() < most ==> i == plan@.len(),
                r@.len() == i + j,
                r@.len() <= most,
                forall|k: int|
                    0 <= k < r@.len() ==> (#[trigger] r@[k])@ == first_chars(
                        all[k],
                        SIDE_WIDTH as int,
                    ),
            decreases self.subs@.len() - j,
        {
            let mut t = "[".to_string();
            t.append(&self.subs[j].0);
            t.append("] ");
            t.append(&self.subs[j].1);
            proof {
                assert(self@.subs[j as int] == (self.subs@[j as int].0@, self.subs@[j as int].1@));
                assert(all[i + j] == sub_text(self@.subs[j as int]));
            }
            let row = screen::take_chars(&t, SIDE_WIDTH);
            r.push(row);
            j = j + 1;
        }
        proof {
            assert(all.len() == plan@.len() + self.subs@.len());
            assert(texts(r@) =~= side_of(self@, w as int, h as int));
        }
        r
    }

    fn body(&self, w: usize, h: usize) -> (r: Vec<Placed>)
        requires
            h >= 6,
            w >= 20,
        ensures
            placed(r@) == body_of(self@, w as int, h as int),
    {
        let live = text::lines(&self.live);
        let usable: usize = h - 4;
        let needed = stream_rows(&live, w - 1);
        let stream_h: usize = if self.stream_on && self.running && needed > 0 {
            if needed + 1 < (usable / 2) as u128 {
                (needed + 1) as usize
            } else {
                usable / 2
            }
        } else {
            0
        };
        assert(stream_h == stream_height(self@, w as int, h - 4));
        let log_h: usize = usable - stream_h;
        let mut body: Vec<Placed> = Vec::new();
        assert(placed(body@) =~= Seq::<(int, Style, Seq<char>)>::empty());
        let shown = screen::visible_rows(&self.log, w - 1, self.scroll, log_h);
        let n = shown.len();
        proof {
            assert(n == styled(shown@).len());
            screen::windows_fit(
                screen::rows_from(self@.log, w - 1, 0),
                self.scroll as int,
                log_h as int,
            );
        }
        let ghost top = stacked(styled(shown@), log_h - n);
        screen::stack(&mut body, shown, log_h - n);
        assert(placed(body@) =~= top);
        if stream_h > 0 {
            let mut title = "── agent stream (F2 hides) ".to_string();
            let dashes: usize = if w > 28 {
                w - 28
            } else {
                1
            };
            let line = screen::repeated('─', dashes);
            title.append(&line);
            screen::put_at(&mut body, log_h, Style::Dim, screen::take_chars(&title, w));
            let mut rows: Vec<(Style, String)> = Vec::new();
            let ghost all = dim_lines(texts(live@));
            let mut i: usize = 0;
            assert(styled(rows@) =~= all.take(0));
            while i < live.len()
                invariant
                    i <= live@.len(),
                    all == dim_lines(texts(live@)),
                    styled(rows@) == all.take(i as int),
                decreases live@.len() - i,
            {
                rows.push((Style::Dim, live[i].clone()));
                assert(styled(rows@) =~= all.take(i as int).push(all[i as int]));
                assert(all.take(i + 1) =~= all.take(i as int).push(all[i as int]));
                i = i + 1;
            }
            assert(all.take(i as int) =~= all);
            let tail = screen::visible_rows(&rows, w - 1, 0, stream_h - 1);
            proof {
                assert(tail@.len() == styled(tail@).len());
                screen::windows_fit(screen::rows_from(all, w - 1, 0), 0, stream_h - 1);
            }
            screen::stack(&mut body, tail, log_h + 1);
        }
        body
    }
}

// ---------------------------------------------------------------------------
// Laws
// ---------------------------------------------------------------------------

/// Whatever happens, the log stays capped.
pub proof fn the_log_is_capped(a: AppV, style: Style, line: Seq<char>)
    ensures
        pushed(a, style, line).log.len() <= LOG_CAP,
        pushed(a, style, line).log.last() == (style, clipped(line, LINE_CAP as int)),
{
}

/// Everything drawn lies on the screen, above the status bar.
pub proof fn rows_stay_on_screen(a: AppV, w: int, h: int, i: int)
    requires
        h >= 6,
        w >= 20,
        0 <= i < body_of(a, w, h).len(),
    ensures
        0 <= (body_of(a, w, h)[i]).0 < h - 2,
{
    let stream_h = stream_height(a, w, h - 4);
    let log_h = h - 4 - stream_h;
    screen::windows_fit(screen::rows_from(a.log, w - 1, 0), a.scroll as int, log_h);
    if stream_h > 0 {
        screen::windows_fit(
            screen::rows_from(dim_lines(lines_of(a.live)), w - 1, 0),
            0,
            stream_h - 1,
        );
    }
}

/// The side column fits beside the log: it has no more rows than the log, and
/// log and column together are no wider than the screen.
pub proof fn the_side_column_fits(a: AppV, w: int, h: int, i: int)
    requires
        h >= 6,
        w >= 20,
        0 <= i < side_of(a, w, h).len(),
    ensures
        side_of(a, w, h).len() <= h - 4,
        body_width(a, w, h) >= 20,
        body_width(a, w, h) + 1 + side_of(a, w, h)[i].len() <= w,
{
}

/// While an agent runs, an entered line never starts a second run.
pub proof fn one_run_at_a_time(a: AppV)
    requires
        a.running,
    ensures
        !(submitted(a).1 is Start),
        submitted(a).0.running,
{
}

/// What the screen knows follows the run: the turn, the stream, which grows by what
/// comes and starts anew with each turn, the context, the plan. Only the end of the
/// run ends it.
pub proof fn the_screen_follows_the_run(a: AppV, t: u32, x: Seq<char>, y: Seq<char>, n: u64, ev: EvV)
    ensures
        took(a, EvV::Turn(t)).0.turn == t,
        took(a, EvV::Turn(t)).0.live.len() == 0,
        took(a, EvV::Turn(t)).0.log == a.log,
        took(took(a, EvV::Delta(x)).0, EvV::Delta(y)).0 == (AppV { live: a.live + x + y, ..a }),
        took(a, EvV::Ctx(n)).0 == (AppV { ctx: n, ..a }),
        took(a, EvV::Plan(x)).0 == (AppV { plan: x, ..a }),
        took(a, ev).1 <==> ev is Done,
        !(ev is Done) ==> took(a, ev).0.running == a.running,
        took(a, ev).0.input == a.input,
        took(a, ev).0.root == a.root,
        took(a, ev).0.quit == a.quit,
{
    reveal_strlit("");
    if ev is Done {
        lemma_pushed_all(a, lines_of(ev->Done_0));
    }
}

proof fn lemma_pushed_all(a: AppV, lines: Seq<Seq<char>>)
    ensures
        ({
            let b = pushed_all(a, lines);
            b == (AppV { log: b.log, scroll: b.scroll, ..a })
        }),
    decreases lines.len(),
{
    if lines.len() > 0 {
        lemma_pushed_all(a, lines.drop_last());
    }
}

/// What an agent does is logged and shown as its last action, a subagent's as such;
/// its result is logged below it.
pub proof fn actions_show_on_the_screen(a: AppV, depth: u8, act: Seq<char>, r: Seq<char>)
    requires
        act.len() + 2 * depth + 4 <= 100,
    ensures
        took(a, EvV::Action(0, act)).0.last_action == act,
        depth > 0 ==> took(a, EvV::Action(depth, act)).0.last_action == "[sub] "@ + act,
        took(a, EvV::Action(depth, act)).0.log.len() > 0,
        took(a, EvV::Action(depth, act)).0.log.last() == (
            Style::Dim,
            clipped("  "@ + run_of(' ', 2 * depth) + "· "@ + act, LINE_CAP as int),
        ),
        took(a, EvV::Result(depth, r)).0.log.last() == (
            Style::Dim,
            clipped("  "@ + run_of(' ', 2 * depth) + "  "@ + r, LINE_CAP as int),
        ),
        took(a, EvV::Result(depth, r)).0.last_action == a.last_action,
        took(a, EvV::Say(r)).0.log.last() == (Style::Plain, clipped(r, LINE_CAP as int)),
        took(a, EvV::Action(depth, act)).0.scroll == 0,
{
}

/// When the run ends nothing runs any more: no stream, no action, no subagents, and
/// the next line that is entered starts a new run.
pub proof fn the_end_clears_the_screen(a: AppV, msg: Seq<char>, line: Seq<char>)
    requires
        trimmed(line).len() > 0,
        stripped(trimmed(line), ":cd "@) is None,
        trimmed(line) != ":q"@,
    ensures
        ({
            let b = took(a, EvV::Done(msg)).0;
            &&& !b.running
            &&& b.live.len() == 0
            &&& b.last_action.len() == 0
            &&& b.subs.len() == 0
            &&& submitted(AppV { input: line, ..b }).1 == AskV::Start { task: trimmed(line) }
        }),
{
    reveal_strlit("");
}

proof fn lemma_others(subs: Seq<(Seq<char>, Seq<char>)>, name: Seq<char>, n: int)
    requires
        0 <= n <= subs.len(),
    ensures
        forall|i: int|
            0 <= i < others(subs, name, n).len() ==> (#[trigger] others(subs, name, n)[i]).0 != name,
        forall|i: int|
            0 <= i < n && (#[trigger] subs[i]).0 != name ==> others(subs, name, n).contains(
                subs[i],
            ),
        others(subs, name, n).len() <= n,
        (forall|i: int| 0 <= i < n ==> (#[trigger] subs[i]).0 != name) ==> others(subs, name, n)
            == subs.take(n),
    decreases n,
{
    if n > 0 {
        lemma_others(subs, name, n - 1);
        let before = others(subs, name, n - 1);
        let now = others(subs, name, n);
        assert forall|i: int| 0 <= i < n && (#[trigger] subs[i]).0 != name implies now.contains(
            subs[i],
        ) by {
            if i < n - 1 {
                let k = choose|k: int| 0 <= k < before.len() && before[k] == subs[i];
                assert(now[k] == subs[i]);
            } else {
                assert(now[before.len() as int] == subs[i]);
            }
        }
        if forall|i: int| 0 <= i < n ==> (#[trigger] subs[i]).0 != name {
            assert(before == subs.take(n - 1));
            assert(now =~= subs.take(n));
        }
    } else {
        assert(subs.take(0) =~= Seq::<(Seq<char>, Seq<char>)>::empty());
    }
}

/// A subagent shows with the first line of what it did last, once; when it is done
/// it goes, and no other does.
pub proof fn subagents_come_and_go(a: AppV, name: Seq<char>, line: Seq<char>, i: int)
    ensures
        ({
            let b = took(a, EvV::Sub(name, line)).0;
            &&& b.subs.contains((name, first_line(line)))
            &&& 0 <= i < a.subs.len() && a.subs[i].0 != name ==> b.subs[i] == a.subs[i]
            &&& (exists|k: int| 0 <= k < a.subs.len() && (#[trigger] a.subs[k]).0 == name)
                ==> b.subs.len() == a.subs.len()
            &&& !(exists|k: int| 0 <= k < a.subs.len() && (#[trigger] a.subs[k]).0 == name)
                ==> b.subs == a.subs.push((name, first_line(line)))
        }),
        ({
            let c = took(a, EvV::SubDone(name)).0;
            &&& forall|k: int| 0 <= k < c.subs.len() ==> (#[trigger] c.subs[k]).0 != name
            &&& 0 <= i < a.subs.len() && a.subs[i].0 != name ==> c.subs.contains(a.subs[i])
        }),
{
    crate::table::lemma_row(a.subs, name, 0);
    lemma_others(a.subs, name, a.subs.len() as int);
    let b = took(a, EvV::Sub(name, line)).0;
    match row_of(a.subs, name, 0) {
        Some(k) => {
            assert(b.subs[k] == (name, first_line(line)));
            assert(a.subs[k].0 == name);
        },
        None => {
            assert(b.subs[a.subs.len() as int] == (name, first_line(line)));
        },
    }
}

/// What is typed is in the input line, and a backspace takes the last of it back.
pub proof fn typing_and_taking_back(a: AppV, c: char)
    ensures
        pressed(a, Key::Char(c)).0.input == a.input + seq![c],
        pressed(pressed(a, Key::Char(c)).0, Key::Backspace).0 == a,
        pressed(a, Key::Char(c)).1 == AskV::Nothing,
        pressed(a, Key::Other) == (a, AskV::Nothing),
        pressed(pressed(a, Key::ToggleStream).0, Key::ToggleStream).0 == a,
        pressed(a, Key::ToggleStream).0.stream_on == !a.stream_on,
{
    assert(a.input.push(c) =~= a.input + seq![c]);
    assert(a.input.push(c).drop_last() =~= a.input);
}

/// A page key scrolls by five rows, back as far as the log goes and forward to its
/// end; paging back and forward again shows what was shown, where there was room.
pub proof fn paging_scrolls_by_five(a: AppV)
    requires
        a.log.len() <= usize::MAX,
    ensures
        a.scroll + 5 <= a.log.len() ==> pressed(a, Key::PageUp).0.scroll == a.scroll + 5,
        a.scroll + 5 <= a.log.len() ==> pressed(pressed(a, Key::PageUp).0, Key::PageDown).0 == a,
        pressed(a, Key::PageUp).0.scroll <= a.log.len(),
        a.scroll >= 5 ==> pressed(a, Key::PageDown).0.scroll == a.scroll - 5,
        a.scroll < 5 ==> pressed(a, Key::PageDown).0.scroll == 0,
{
}

/// Ctrl-C and Escape ask a running agent to stop and leave the screen open; with
/// none running Ctrl-C closes it and Escape does nothing.
pub proof fn interrupts_stop_before_they_quit(a: AppV)
    ensures
        a.running ==> pressed(a, Key::Interrupt).1 == AskV::Stop && pressed(
            a,
            Key::Interrupt,
        ).0.quit == a.quit,
        a.running ==> pressed(a, Key::Escape).1 == AskV::Stop && pressed(a, Key::Escape).0.quit
            == a.quit,
        a.running ==> pressed(a, Key::Escape).0.running,
        !a.running ==> pressed(a, Key::Interrupt).0.quit && pressed(a, Key::Interrupt).1
            == AskV::Nothing,
        !a.running ==> pressed(a, Key::Escape) == (a, AskV::Nothing),
{
}

/// What an entered line does: with an agent running it is delivered, else it starts
/// a run; `:q` closes the screen, `:cd` asks for the directory it names unless an
/// agent runs, and a blank line does nothing. The input line is empty after it.
pub proof fn entered_lines_are_tasks_or_messages(a: AppV, line: Seq<char>, path: Seq<char>)
    requires
        line == trimmed(a.input),
    ensures
        submitted(a).0.input.len() == 0,
        line.len() == 0 ==> submitted(a) == (AppV { input: submitted(a).0.input, ..a }, AskV::Nothing),
        line == ":q"@ ==> submitted(a).0.quit && submitted(a).1 == AskV::Nothing,
        line == ":cd "@ + path && !a.running ==> submitted(a).1 == (AskV::Cd {
            path: trimmed(path),
            typed: path,
        }),
        line == ":cd "@ + path && a.running ==> submitted(a).1 == AskV::Nothing,
        line.len() > 0 && line[0] != ':' && a.running ==> submitted(a).1 == (AskV::Deliver {
            message: line,
        }),
        line.len() > 0 && line[0] != ':' && !a.running ==> submitted(a).1 == (AskV::Start {
            task: line,
        }) && submitted(a).0.running && submitted(a).0.turn == 0,
        line != ":q"@ ==> submitted(a).0.quit == a.quit,
{
    reveal_strlit("");
    reveal_strlit(":cd ");
    reveal_strlit(":q");
    if line == ":cd "@ + path {
        assert(line.subrange(0, 4) =~= ":cd "@);
        assert(line.skip(4) =~= path);
    }
    if line.len() > 0 && line[0] != ':' {
        if stripped(line, ":cd "@) is Some {
            assert(line.subrange(0, 4)[0] == line[0]);
        }
    }
    if line == ":q"@ {
        assert(stripped(line, ":cd "@) is None);
    }
}

/// A directory that was found is the root from then on; one that was not leaves the
/// root, and the log says which it was.
pub proof fn only_found_directories_are_entered(a: AppV, typed: Seq<char>, p: Seq<char>)
    ensures
        moved_to(a, typed, Some(p)).root == p,
        moved_to(a, typed, None).root == a.root,
        moved_to(a, typed, None).log.last() == (
            Style::Dim,
            clipped("  no such directory: "@ + typed, LINE_CAP as int),
        ),
{
}

/// The stream pane shows only while an agent runs and it is on, and takes at most
/// half of the rows.
pub proof fn the_stream_pane_is_small(a: AppV, w: int, usable: int)
    requires
        w > 1,
        usable >= 2,
    ensures
        stream_height(a, w, usable) <= usable / 2,
        !a.running || !a.stream_on ==> stream_height(a, w, usable) == 0,
        a.running && a.stream_on && a.live.len() > 0 && !a.live.contains('\n') && byte_len(a.live)
            < w - 1 && usable >= 6 ==> stream_height(a, w, usable) == 2,
{
    if a.live.len() > 0 && !a.live.contains('\n') && byte_len(a.live) < w - 1 {
        text::lemma_lines_one(a.live);
        reveal_with_fuel(rows_needed, 2);
        assert(byte_len(a.live) as int / (w - 1) == 0) by (nonlinear_arith)
            requires
                0 <= byte_len(a.live) < w - 1,
        ;
    }
}

/// The status bar says where the agent works and what it does.
pub proof fn the_status_says_what_runs(a: AppV, secs: Seq<char>)
    ensures
        !a.running ==> state_text(a, secs) == "idle"@,
        a.running && a.last_action.len() > 0 ==> state_text(a, secs) == "turn "@ + decimal(
            a.turn as nat,
        ) + " · "@ + secs + "s · "@ + a.last_action,
        a.running && a.last_action.len() == 0 ==> state_text(a, secs) == "turn "@ + decimal(
            a.turn as nat,
        ) + " · "@ + secs + "s"@,
{
    reveal_strlit("");
    reveal_strlit("s");
    reveal_strlit(" · ");
    reveal_strlit("s · ");
    assert("s"@ + " · "@ =~= "s · "@);
    if a.running {
        let t = "turn "@ + decimal(a.turn as nat) + " · "@ + secs;
        assert(t + "s"@ + " · "@ + a.last_action =~= t + ("s"@ + " · "@) + a.last_action);
        assert(t + "s"@ + ""@ =~= t + "s"@);
        assert(t + "s"@ + (" · "@ + a.last_action) =~= t + "s · "@ + a.last_action);
    }
}

/// The status bar is as wide as the screen and starts with the root.
pub proof fn the_status_bar_fills_the_row(a: AppV, secs: Seq<char>, w: int)
    requires
        w >= a.root.len() + 1,
    ensures
        status_text(a, secs, w).len() == w,
        status_text(a, secs, w).subrange(1, 1 + a.root.len() as int) == a.root,
{
    reveal_strlit(" ");
    let line = " "@ + a.root + " · "@ + state_text(a, secs) + " · stream "@ + (if a.stream_on {
        "on"@
    } else {
        "off"@
    }) + " "@;
    let part = first_chars(line, w);
    screen::texts_are_fitted(part, Seq::empty(), w);
    assert(status_text(a, secs, w).subrange(1, 1 + a.root.len() as int) =~= a.root);
}

} // verus!
