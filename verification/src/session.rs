//! The run loop: what happens between the model's replies, and when a run may
//! end. The loop performs no work of its own. Each step takes in what happened
//! outside and says what has to happen next.

use crate::agent;
use crate::agent::blank_report;
use crate::agent::cleaned;
use crate::agent::first_lines_of;
use crate::agent::noted_all;
use crate::agent::recorded;
use crate::agent::rescued;
use crate::agent::system_text;
use crate::agent::think_on;
use crate::agent::Ctl;
use crate::agent::Ev;
use crate::agent::EvV;
use crate::agent::Log;
use crate::agent::LogV;
use crate::agent::Report;
use crate::agent::ReportV;
use crate::client::StatsV;
use crate::client::StreamStats;
use crate::config::Config;
use crate::config::CtxCfg;
use crate::config::ProfileCfg;
use crate::dsl::cmds;
use crate::dsl::fresh;
use crate::dsl::lemma_cmds_push;
use crate::dsl::lexed;
use crate::dsl::lexed_end;
use crate::dsl::Cmd;
use crate::dsl::CmdV;
use crate::dsl::LexV;
use crate::dsl::Lexer;
use crate::ledger;
use crate::ledger::calibrated;
use crate::ledger::estimate;
use crate::ledger::hash_of;
use crate::ledger::sane_ratio;
use crate::ledger::EntryV;
use crate::ledger::Kind;
use crate::ledger::Ledger;
use crate::plan::compact_text;
use crate::plan::open_steps;
use crate::plan::seen_after;
use crate::plan::PlanTick;
use crate::plan::SeenV;
use crate::plan::TickV;
use crate::render::is_seal_due;
use crate::render::rendered;
use crate::render::rendered_state;
use crate::render::sealed;
use crate::render::RenderV;
use crate::render::Renderer;
use crate::table::lookup;
use crate::table::put;
use crate::table::Table;
use crate::text;
use crate::text::begins;
use crate::text::byte_len;
use crate::text::decimal;
use crate::text::held_sum;
use crate::text::joined;
use crate::text::lowered;
use crate::text::opt_text;
use crate::text::pairs;
use crate::text::texts;
use crate::text::trimmed;
use crate::tools::clip;
use crate::tools::clipped;
use crate::tools::legend_text;
use crate::tools::pruned;
use crate::tools::Image;
use crate::tools::WorkV;
use crate::tools::Workspace;
use crate::turn::desk_emitted;
use crate::turn::desk_noted;
use crate::turn::desk_recorded;
use crate::turn::dispatched;
use crate::turn::extends;
use crate::turn::landed_desk;
use crate::turn::viewed_desk;
use crate::turn::Desk;
use crate::turn::DeskV;
use crate::turn::Mode;
use crate::turn::Todo;
use std::collections::HashMap;
use vstd::prelude::*;

verus! {

broadcast use vstd::std_specs::hash::group_hash_axioms;

pub const MAX_EMPTY_TURNS: u32 = 3;

/// Consecutive work-free talk turns before the run ends anyway. S never ends
/// the run, so without a cap a model that only narrates would loop forever.
pub const MAX_TALK_TURNS: u32 = 3;

/// Collapses in a row before the run is given up.
pub const MAX_COLLAPSES: u32 = 6;

/// Failures of the model endpoint in a row before the run is given up.
pub const MAX_ERRORS: u32 = 6;

/// Refused commands before the run is given up.
pub const MAX_REFUSALS: u32 = 12;

/// Restated immediately before the request for the next commands. Identical in
/// content to the system prompt's first line: the position is the whole point.
pub const NO_PROSE_REMINDER: &'static str =
    "REMINDER: reply with command lines ONLY — no prose, no markdown, no preamble. Your first character is a verb letter. Text for the user goes in S.\n";

/// What the model is asked for when its history is to be compressed.
pub const COMPRESS: &'static str =
    "\n## COMPRESS\nPause the task. Act as a context compressor: produce a CHRONOLOGICAL, DENSE briefing of the LOG above. This instruction is NOT part of the log — never mention it, never place it in the timeline, never treat it as the task. The task above is IN PROGRESS and resumes exactly where it left off.\n\nRULES:\n- Refer to files by #id only — never re-spell paths, the legend resolves them.\n- Preserve ALL standing constraints from EVERY task entry, not just the latest — what to do and what NOT to do.\n- Preserve ALL decisions and WHY, every error hit and how it was resolved, and every approach TRIED AND REJECTED so it is not retried.\n- Do not restate the plan; it is rendered in full every turn. Record only what the plan cannot: ordering rationale, dead ends, constraints discovered.\n- Do not narrate the recent entries still shown verbatim below.\n- Do NOT editorialize. Every sentence carries information.\n- If the log contains a [history compressed] block, INTEGRATE it: keep all its details and extend the timeline. Do not re-summarize it.\n\nFORMAT:\n## Task & Constraints\n## Timeline\n## Current State\n## Key Details\n\nOutput only the briefing.\n";

pub const SEAL_SKIPPED: &'static str =
    "(seal skipped: the briefing degenerated and was cut — folding structurally)";

pub const SEAL_REJECTED: &'static str =
    "(seal rejected: briefing did not shrink the doc — folding structurally)";

pub const SEAL_DONE: &'static str =
    "(history compacted via prompt-cached model summary)";

pub const THINK_VERIFY: &'static str =
    "(thinking enabled for the next turns: repeated verify failure means this needs more deliberation)";

pub const THINK_COLLAPSE: &'static str =
    "(thinking enabled for the next turns: repeated collapse means this needs more deliberation)";

pub const THINK_LOOP: &'static str =
    "(thinking enabled for the next turns: the repeated identical result means this needs a different, deliberate approach)";

pub const B_IGNORED: &'static str =
    "(B ignored — [model.think] has no \"request\" trigger configured)";

pub const B_REFUSED: &'static str =
    "(B refused — deliberation was already requested twice this run; work with what you have)";

pub const COLLAPSE_1: &'static str =
    "(output collapsed into repetition and was cut — retry)";

pub const COLLAPSE_2: &'static str =
    "(collapsed again — reply with ONE short command only, e.g. `X dir`)";

pub const COLLAPSE_END: &'static str =
    "(aborted: output collapsed 6 times in a row — the model is stuck on this prompt; rephrase or try again)";

pub const PROSE_RESCUED: &'static str =
    "(that was prose, not commands — delivered to the user as S this once; for a multi-line message use `S <<` … `.` yourself, or finish with D)";

pub const EMPTY_END: &'static str =
    "(aborted: model produced no commands)";

pub const EMPTY_NOTE: &'static str =
    "no commands parsed — plain prose is discarded. Use S <text> to talk to the user, or D to finish";

pub const PROSE_LOST: &'static str =
    " DISCARDED — the user never saw them. A multi-line message to the user goes in `S <<` … `.`; one line goes in `S <text>`; a final report goes in D. When resending, resend ONLY the lost lines — commands this turn already ran)";

pub const NUDGE: &'static str =
    "(S never ends the run — do the next step NOW with commands. When you are finished, or you need the user, end with D)";

pub const STUCK_END: &'static str =
    "(aborted: the model kept repeating a refused command — it is stuck; rephrase the task or use a different model)";

pub const LENGTH_NOTE: &'static str =
    "(your output hit the max_tokens limit mid-message — any cut-off file was written PARTIALLY. Read it, then CONTINUE it with I <id> <last-line> or E; do NOT rewrite it from scratch)";

pub const BOUNCE: &'static str =
    " prose lines in this message were DISCARDED; the user never saw them. Resend the report INSIDE the D message — D captures every line after it to the end of the message)";

pub const ECHO: &'static str =
    "(D refused — that message only repeats what you just said with S; the user already has it. End with D carrying the RESULTS, or keep working)";

pub const VERIFY_REFUSED: &'static str =
    "(D refused — auto-verify FAILED after your edits; fix it first)";

pub const VERIFY_WAIT: &'static str =
    "(waiting on auto-verify before finishing…)";

pub const SUBS_BACK: &'static str =
    "(all subagents have returned — incorporate their briefs above, then finish with D)";

pub const CHECK_HEAD: &'static str =
    "\n## CHECK\nThe agent is about to end the run with this report:\n---\n";

pub const CHECK_TAIL: &'static str =
    "\nList ONLY factual claims in the report that this evidence contradicts — a file said to be written that is not in the list, a command said to have been run that was not. Judgements about quality are not your concern. If every claim is supported, reply with exactly: OK\n";

pub const CLAIMS_HEAD: &'static str =
    "(D refused — your report claims things this run did not do:\n";

pub const CLAIMS_TAIL: &'static str =
    "\nDo the work, or send a report that matches what actually happened)";

// ---------------------------------------------------------------------------
// Sessions
// ---------------------------------------------------------------------------

/// A continuable session: the ledger, workspace, and renderer survive across
/// tasks so a conversation has memory.
pub struct Session {
    pub ledger: Ledger,
    pub ws: Workspace,
    pub renderer: Renderer,
    /// How many turns came before.
    pub turn_base: u32,
}

/// A renderer that has rendered nothing.
pub open spec fn fresh_renderer() -> RenderV {
    RenderV { sealed_upto: 0, overrides: Map::empty(), last_seal_len: 0 }
}

impl Session {
    pub open spec fn wf(self) -> bool {
        &&& self.ledger.wf()
        &&& self.renderer@.sealed_upto <= self.ledger@.len()
    }

    /// A new session. The leader's starts with the orientation, pinned, where
    /// the config wants one; a subagent's never does.
    pub fn new(cfg: &Config, root: String, depth: u8, orientation: Option<String>) -> (r: Session)
        ensures
            r.wf(),
            r.turn_base == 0,
            r.renderer@ == fresh_renderer(),
            r.ws@ == (WorkV { root: root@, files: Seq::empty(), written: Seq::empty() }),
            r.ledger@ == (if depth == 0 && cfg.context.bootstrap && orientation is Some {
                seq![ledger::entry_for(Kind::Pin, 0, (orientation->0)@, None)]
            } else {
                Seq::<EntryV>::empty()
            }),
    {
        let mut l = Ledger::new();
        if depth == 0 && cfg.context.bootstrap {
            if let Some(t) = orientation {
                l.push(Kind::Pin, 0, t, None);
                assert(l@ =~= seq![ledger::entry_for(Kind::Pin, 0, t@, None)]);
            }
        }
        Session { ledger: l, ws: Workspace::new(root), renderer: Renderer::new(), turn_base: 0 }
    }
}

// ---------------------------------------------------------------------------
// The state of a run
// ---------------------------------------------------------------------------

/// What stays fixed during a run.
pub struct Setup {
    /// The config, with the budget of the profile.
    pub cfg: Config,
    /// 0 = unlimited.
    pub max_turns: u32,
    pub system: String,
    /// Turns before this run.
    pub base: u32,
}

/// The counters of a run.
#[derive(Clone, Copy, PartialEq, Eq, Structural)]
pub struct Counts {
    pub turn: u32,
    /// Turns without any command in a row.
    pub empty: u32,
    /// Collapses in a row.
    pub degens: u32,
    /// Turns of talk without work in a row, and the hash of the last of them.
    pub talk: u32,
    pub last_talk: u64,
    /// Ds bounced because their report was discarded as prose.
    pub bounces: u32,
    /// Ds refused by the claim check.
    pub claims: u32,
    /// Endpoint failures in a row.
    pub errs: u32,
    /// Billed size of the last request; 0 = not known.
    pub last_prompt: u64,
    /// Files before this one were already announced, and how many there were
    /// when the current request was made.
    pub legend_base: usize,
    pub legend_next: usize,
    /// Requests left with deliberation on, and how often the model asked for it.
    pub think_left: u32,
    pub think_reqs: u32,
    /// The size of the current request in bytes, and whether it had images.
    pub sent_bytes: usize,
    pub had_images: bool,
}

/// Where a run stands.
#[derive(Clone, Copy, PartialEq, Eq, Structural)]
pub enum Phase {
    /// Between two turns.
    Top,
    /// The plan is being looked at.
    Plan,
    /// The model is writing a briefing of its history.
    Seal,
    /// The model is generating commands.
    Stream,
    /// The deferred commands of the turn are being dispatched.
    Tail { nudge: bool, length_capped: bool, handback: bool },
    /// A D waits for the background verify.
    Verify,
    /// A D waits for the plan.
    GatePlan,
    /// A D waits for the claim check.
    Claims,
    /// A D waits for subagents.
    Subs,
    /// The run is over.
    Over,
}

pub struct Run {
    pub desk: Desk,
    pub ws: Workspace,
    pub renderer: Renderer,
    pub rep: Report,
    pub lexer: Lexer,
    /// Commands that wait for the end of the stream.
    pub tail: Vec<Cmd>,
    /// Plan step statuses as last seen.
    pub seen: Table<String>,
    /// Failure streaks, by what failed.
    pub vfails: Table<u32>,
    pub n: Counts,
    /// Characters per token, in thousandths.
    pub cpt_milli: usize,
    pub phase: Phase,
    pub plan_view: String,
    /// The turn edited files, so the configured check has to be started.
    pub verify_wanted: bool,
    pub set: Setup,
}

#[verifier::ext_equal]
pub struct RunV {
    pub desk: DeskV,
    pub ws: WorkV,
    pub rend: RenderV,
    pub rep: ReportV,
    pub lex: LexV,
    pub tail: Seq<CmdV>,
    pub seen: SeenV,
    pub vfails: Seq<(Seq<char>, u32)>,
    pub n: Counts,
    pub cpt: usize,
    pub phase: Phase,
    pub plan_view: Seq<char>,
    pub verify_wanted: bool,
}

impl View for Run {
    type V = RunV;

    open spec fn view(&self) -> RunV {
        RunV {
            desk: self.desk@,
            ws: self.ws@,
            rend: self.renderer@,
            rep: self.rep@,
            lex: self.lexer@,
            tail: cmds(self.tail@),
            seen: self.seen@,
            vfails: self.vfails@,
            n: self.n,
            cpt: self.cpt_milli,
            phase: self.phase,
            plan_view: self.plan_view@,
            verify_wanted: self.verify_wanted,
        }
    }
}

/// What holds of a run at every step.
pub open spec fn sound(r: RunV) -> bool {
    &&& r.rend.sealed_upto <= r.desk.log.entries.len()
    &&& sane_ratio(r.cpt as int)
}

// ---------------------------------------------------------------------------
// Small steps
// ---------------------------------------------------------------------------

/// The run after an advisory line.
pub open spec fn run_noted(r: RunV, text: Seq<char>) -> RunV {
    RunV { desk: desk_noted(r.desk, text), ..r }
}

/// The run after a line that is only shown.
pub open spec fn run_shown(r: RunV, text: Seq<char>) -> RunV {
    RunV { desk: desk_emitted(r.desk, EvV::Result(r.desk.log.depth, text)), ..r }
}

/// The run with its final message set and over.
pub open spec fn ended(r: RunV, msg: Seq<char>) -> RunV {
    RunV { rep: ReportV { final_msg: msg, ..r.rep }, phase: Phase::Over, ..r }
}

/// The failure of the same thing that arms deliberation.
pub open spec fn think_after(cfg: Config) -> u32 {
    match cfg.model.think {
        Some(t) => t.after,
        None => 2,
    }
}

/// How long deliberation stays on.
pub open spec fn think_turns(cfg: Config) -> u32 {
    match cfg.model.think {
        Some(t) => t.turns,
        None => 0,
    }
}

/// The run once a signal may have armed deliberation, and whether it did.
pub open spec fn escalated(r: RunV, set: Setup, sig: Seq<char>) -> (RunV, bool) {
    if think_on(set.cfg, sig) {
        let turns = think_turns(set.cfg);
        let left = if turns > r.n.think_left {
            turns
        } else {
            r.n.think_left
        };
        (
            RunV { n: Counts { think_left: left, ..r.n }, ..r },
            r.n.think_left == 0 && left > 0,
        )
    } else {
        (r, false)
    }
}

/// The run after one more failure of `key`: the `after`-th in a row arms
/// deliberation, with a note where that is new.
pub open spec fn failed(r: RunV, set: Setup, key: Seq<char>, note: Seq<char>) -> RunV {
    let before = match lookup(r.vfails, key) {
        Some(c) => c,
        None => 0,
    };
    let c = held_sum(before as int, 1, u32::MAX as int) as u32;
    let r1 = RunV { vfails: put(r.vfails, key, c), ..r };
    if c >= think_after(set.cfg) {
        let (r2, newly) = escalated(r1, set, "verify_fail"@);
        if newly {
            run_noted(r2, note)
        } else {
            r2
        }
    } else {
        r1
    }
}

/// The run once a background verify has come back.
#[verifier::opaque]
pub open spec fn verify_back(r: RunV, set: Setup, ok: bool, text: Seq<char>) -> RunV {
    let r1 = run_noted(r, text);
    if ok {
        RunV { vfails: put(r1.vfails, "@verify"@, 0), ..r1 }
    } else {
        failed(r1, set, "@verify"@, THINK_VERIFY@)
    }
}

pub open spec fn step_failed_note(id: Seq<char>) -> Seq<char> {
    "(thinking enabled for the next turns: step '"@ + id
        + "' has failed its verify repeatedly — this needs more deliberation)"@
}

/// The run after the verify failures of the first `n` steps.
pub open spec fn steps_failed(r: RunV, set: Setup, ids: Seq<Seq<char>>, n: int) -> RunV
    decreases n,
{
    if n <= 0 {
        r
    } else {
        failed(
            steps_failed(r, set, ids, n - 1),
            set,
            ids[n - 1],
            step_failed_note(ids[n - 1]),
        )
    }
}

/// How many steps were last seen done, among the first `n`.
pub open spec fn dones_in(seen: SeenV, n: int) -> nat
    decreases n,
{
    if n <= 0 {
        0
    } else if seen[n - 1].1@ == "done"@ {
        dones_in(seen, n - 1) + 1
    } else {
        dones_in(seen, n - 1)
    }
}

/// What was found when the plan was looked at.
pub enum PlanNews {
    /// There is no plan file.
    Missing,
    /// It cannot be read.
    Broken(String),
    /// A pass over it, finished.
    Ticked(PlanTick),
}

pub enum PlanNewsV {
    Missing,
    Broken(Seq<char>),
    Ticked(TickV, Seq<crate::plan::Step>),
}

impl View for PlanNews {
    type V = PlanNewsV;

    open spec fn view(&self) -> PlanNewsV {
        match *self {
            PlanNews::Missing => PlanNewsV::Missing,
            PlanNews::Broken(e) => PlanNewsV::Broken(e@),
            PlanNews::Ticked(t) => PlanNewsV::Ticked(t@, t.plan.steps@),
        }
    }
}

/// What a look at the plan leaves: the run, the plan's view, and its open
/// steps. A plan that cannot be read counts as open.
#[verifier::opaque]
pub open spec fn planned(r: RunV, set: Setup, news: PlanNewsV) -> (RunV, Seq<char>, Seq<Seq<char>>) {
    match news {
        PlanNewsV::Missing => (r, ""@, Seq::empty()),
        PlanNewsV::Broken(e) => (
            r,
            "## PLAN: PARSE ERROR — fix the file: "@ + clipped(e, 200) + "\n"@,
            seq!["(unparseable plan)"@],
        ),
        PlanNewsV::Ticked(t, steps) => {
            let r1 = RunV {
                desk: DeskV { log: noted_all(r.desk.log, r.desk.turn, t.notes), ..r.desk },
                seen: seen_after(steps, steps.len() as int),
                ..r
            };
            (
                steps_failed(r1, set, t.fails, t.fails.len() as int),
                compact_text(t.plan),
                open_steps(t.plan.steps, t.plan.steps.len() as int),
            )
        },
    }
}

impl Run {
    /// The parts of a run that have an invariant keep it.
    pub open spec fn wf(self) -> bool {
        &&& self.desk.wf()
        &&& sound(self@)
        &&& self.seen.wf()
        &&& self.vfails.wf()
    }

    fn note(&mut self, text: String)
        requires
            old(self).wf(),
        ensures
            final(self).wf(),
            final(self).set == old(self).set,
            final(self)@ == run_noted(old(self)@, text@),
    {
        self.desk.note(text);
    }

    fn show(&mut self, text: String)
        requires
            old(self).wf(),
        ensures
            final(self).wf(),
            final(self).set == old(self).set,
            final(self)@ == run_shown(old(self)@, text@),
    {
        let depth = self.desk.log.depth;
        self.desk.log.emit(Ev::Result(depth, text));
    }

    fn end(&mut self, msg: String)
        requires
            old(self).wf(),
        ensures
            final(self).wf(),
            final(self).set == old(self).set,
            final(self)@ == ended(old(self)@, msg@),
    {
        self.rep.final_msg = msg;
        self.phase = Phase::Over;
    }

    fn escalate(&mut self, sig: &str) -> (newly: bool)
        requires
            old(self).wf(),
        ensures
            final(self).wf(),
            final(self).set == old(self).set,
            (final(self)@, newly) == escalated(old(self)@, old(self).set, sig@),
    {
        if !agent::thinks_on(&self.set.cfg, sig) {
            return false;
        }
        let turns: u32 = match &self.set.cfg.model.think {
            Some(t) => t.turns,
            None => 0,
        };
        let was = self.n.think_left;
        if turns > was {
            self.n.think_left = turns;
        }
        was == 0 && self.n.think_left > 0
    }

    fn after(&self) -> (n: u32)
        ensures
            n == think_after(self.set.cfg),
    {
        match &self.set.cfg.model.think {
            Some(t) => t.after,
            None => 2,
        }
    }

    fn count_failure(&mut self, key: &str, note: String)
        requires
            old(self).wf(),
        ensures
            final(self).wf(),
            final(self).set == old(self).set,
            final(self)@ == failed(old(self)@, old(self).set, key@, note@),
    {
        let before: u32 = match self.vfails.get(key) {
            Some(c) => *c,
            None => 0,
        };
        let c: u32 = text::add_u32(before, 1);
        self.vfails.insert(key.to_owned(), c);
        if c >= self.after() {
            if self.escalate("verify_fail") {
                self.note(note);
            }
        }
    }

    fn verify_returned(&mut self, ok: bool, text: String)
        requires
            old(self).wf(),
        ensures
            final(self).wf(),
            final(self).set == old(self).set,
            final(self)@ == verify_back(old(self)@, old(self).set, ok, text@),
    {
        proof {
            reveal(verify_back);
        }
        self.note(text);
        if ok {
            self.vfails.insert("@verify".to_string(), 0);
        } else {
            self.count_failure("@verify", THINK_VERIFY.to_string());
        }
    }

    fn count_dones(&self) -> (n: usize)
        ensures
            n == dones_in(self@.seen, self@.seen.len() as int),
    {
        let mut n: usize = 0;
        let mut i: usize = 0;
        while i < self.seen.items.len()
            invariant
                n <= i <= self.seen@.len(),
                n == dones_in(self.seen@, i as int),
            decreases self.seen@.len() - i,
        {
            assert(self.seen@[i as int].1 == self.seen.items@[i as int].1);
            if text::same(&self.seen.items[i].1, "done") {
                n = n + 1;
            }
            i = i + 1;
        }
        n
    }

    fn take_plan(&mut self, news: PlanNews) -> (r: (String, Vec<String>))
        requires
            old(self).wf(),
        ensures
            final(self).wf(),
            final(self).set == old(self).set,
            (final(self)@, r.0@, texts(r.1@)) == planned(old(self)@, old(self).set, news@),
    {
        proof {
            reveal(planned);
        }
        match news {
            PlanNews::Missing => {
                let none: Vec<String> = Vec::new();
                assert(texts(none@) =~= Seq::<Seq<char>>::empty());
                ("".to_string(), none)
            },
            PlanNews::Broken(e) => {
                let mut view = "## PLAN: PARSE ERROR — fix the file: ".to_string();
                let why = clip(&e, 200);
                view.append(&why);
                view.append("\n");
                let open = vec!["(unparseable plan)".to_string()];
                assert(texts(open@) =~= seq!["(unparseable plan)"@]);
                (view, open)
            },
            PlanNews::Ticked(t) => {
                let turn = self.desk.turn;
                self.desk.log.note_all(turn, &t.notes);
                proof {
                    lemma_noted_all_grows(old(self)@.desk.log, turn, texts(t.notes@));
                }
                self.seen = t.seen();
                let ghost start = self@;
                let mut i: usize = 0;
                while i < t.fails.len()
                    invariant
                        i <= t.fails@.len(),
                        self.wf(),
                        self.set == old(self).set,
                        self@ == steps_failed(start, self.set, texts(t.fails@), i as int),
                    decreases t.fails@.len() - i,
                {
                    assert(texts(t.fails@)[i as int] == t.fails@[i as int]@);
                    let mut note = "(thinking enabled for the next turns: step '".to_string();
                    note.append(&t.fails[i]);
                    note.append("' has failed its verify repeatedly — this needs more deliberation)");
                    self.count_failure(&t.fails[i], note);
                    i = i + 1;
                }
                assert(texts(t.fails@).len() == t.fails@.len());
                (t.plan.compact(), t.plan.open_ids())
            },
        }
    }
}

proof fn lemma_noted_all_grows(log: LogV, turn: u32, notes: Seq<Seq<char>>)
    ensures
        noted_all(log, turn, notes).entries.len() == log.entries.len() + notes.len(),
    decreases notes.len(),
{
    if notes.len() > 0 {
        lemma_noted_all_grows(log, turn, notes.drop_last());
    }
}

// ---------------------------------------------------------------------------
// Subagents that came back
// ---------------------------------------------------------------------------

/// What reports say, where there are any.
pub open spec fn reports(v: Seq<Option<Report>>) -> Seq<Option<ReportV>> {
    v.map_values(
        |o: Option<Report>|
            match o {
                Some(r) => Some(r@),
                None => None,
            },
    )
}

/// A subagent's brief.
pub open spec fn brief(name: Seq<char>, turns: u32, msg: Seq<char>) -> Seq<char> {
    "["@ + name + "] ("@ + decimal(turns as nat) + " turns) "@ + msg
}

/// The run once a finished subagent's brief has landed.
pub open spec fn harvested_one(r: RunV, name: Seq<char>, sub: ReportV) -> RunV {
    let d1 = desk_emitted(r.desk, EvV::SubDone(name));
    let d2 = desk_emitted(
        d1,
        EvV::Result(
            d1.log.depth,
            clipped(brief(name, sub.turns, first_lines_of(sub.final_msg, 2)), 400),
        ),
    );
    let d3 = desk_recorded(d2, Kind::Result, brief(name, sub.turns, sub.final_msg));
    RunV {
        desk: d3,
        rep: ReportV {
            model_ms: held_sum(
                r.rep.model_ms as int,
                sub.model_ms as int,
                u128::MAX as int,
            ) as u128,
            ..r.rep
        },
        ..r
    }
}

/// The report of subagent `k`. Where all are waited for, one that left no
/// report counts with a blank one.
pub open spec fn sub_report(back: Seq<Option<ReportV>>, k: int, all: bool) -> Option<ReportV> {
    if k < back.len() && back[k] is Some {
        back[k]
    } else if all {
        Some(blank_report())
    } else {
        None
    }
}

/// The run once the first `n` subagents have been looked at, and those of them
/// that are still out.
pub open spec fn harvested_upto(r: RunV, back: Seq<Option<ReportV>>, all: bool, n: int) -> (
    RunV,
    Seq<(Seq<char>, Seq<char>)>,
)
    decreases n,
{
    if n <= 0 {
        (r, Seq::empty())
    } else {
        let (r1, out) = harvested_upto(r, back, all, n - 1);
        let p = r.desk.pending[n - 1];
        match sub_report(back, n - 1, all) {
            Some(sub) => (harvested_one(r1, p.0, sub), out),
            None => (r1, out.push(p)),
        }
    }
}

/// The run once every subagent that came back has landed.
#[verifier::opaque]
pub open spec fn harvested(r: RunV, back: Seq<Option<ReportV>>, all: bool) -> RunV {
    let (r1, out) = harvested_upto(r, back, all, r.desk.pending.len() as int);
    RunV { desk: DeskV { pending: out, ..r1.desk }, ..r1 }
}

/// Landing briefs only adds entries.
proof fn lemma_harvested_grows(r: RunV, back: Seq<Option<ReportV>>, all: bool, n: int)
    ensures
        harvested_upto(r, back, all, n).0.desk.log.entries.len() >= r.desk.log.entries.len(),
        harvested_upto(r, back, all, n).0.rend == r.rend,
        harvested_upto(r, back, all, n).0.cpt == r.cpt,
        harvested_upto(r, back, all, n).0.desk.pending == r.desk.pending,
    decreases n,
{
    if n > 0 {
        lemma_harvested_grows(r, back, all, n - 1);
    }
}

fn brief_text(name: &str, turns: u32, msg: &str) -> (r: String)
    ensures
        r@ == brief(name@, turns, msg@),
{
    let mut t = "[".to_string();
    t.append(name);
    t.append("] (");
    let n = text::dec(turns as u64);
    t.append(&n);
    t.append(" turns) ");
    t.append(msg);
    t
}

impl Run {
    /// Land a finished subagent's brief in the ledger and UI.
    fn harvest(&mut self, name: &str, sub: &Report)
        requires
            old(self).wf(),
        ensures
            final(self).wf(),
            final(self).set == old(self).set,
            final(self)@ == harvested_one(old(self)@, name@, sub@),
    {
        self.desk.log.emit(Ev::SubDone(name.to_owned()));
        let head = agent::first_lines(&sub.final_msg, 2);
        let line = brief_text(name, sub.turns, &head);
        let shown = clip(&line, 400);
        let depth = self.desk.log.depth;
        self.desk.log.emit(Ev::Result(depth, shown));
        let entry = brief_text(name, sub.turns, &sub.final_msg);
        let turn = self.desk.turn;
        self.desk.log.push(Kind::Result, turn, entry, None);
        self.rep.model_ms = text::add_u128(self.rep.model_ms, sub.model_ms);
    }

    fn harvest_all(&mut self, back: &Vec<Option<Report>>, all: bool)
        requires
            old(self).wf(),
        ensures
            final(self).wf(),
            final(self).set == old(self).set,
            final(self)@ == harvested(old(self)@, reports(back@), all),
    {
        proof {
            reveal(harvested);
        }
        let ghost start = self@;
        let ghost b = reports(back@);
        let mut out: Vec<(String, String)> = Vec::new();
        let mut k: usize = 0;
        assert(pairs(out@) =~= Seq::<(Seq<char>, Seq<char>)>::empty());
        while k < self.desk.pending.len()
            invariant
                k <= self.desk.pending@.len(),
                self.wf(),
                self.set == old(self).set,
                b == reports(back@),
                start == old(self)@,
                start.desk.pending == pairs(self.desk.pending@),
                (self@, pairs(out@)) == harvested_upto(start, b, all, k as int),
            decreases self.desk.pending@.len() - k,
        {
            proof {
                lemma_harvested_grows(start, b, all, k as int);
                lemma_harvested_grows(start, b, all, k + 1);
                assert(start.desk.pending[k as int] == (
                    self.desk.pending@[k as int].0@,
                    self.desk.pending@[k as int].1@,
                ));
            }
            let name = self.desk.pending[k].0.clone();
            let ghost before = self@;
            if k < back.len() && back[k].is_some() {
                assert(b[k as int] == Some((back@[k as int]->0)@));
                if let Some(sub) = &back[k] {
                    self.harvest(&name, sub);
                }
            } else if all {
                assert(!(k < b.len() && b[k as int] is Some));
                self.harvest(&name, &Report::default());
            } else {
                assert(!(k < b.len() && b[k as int] is Some));
                let task = self.desk.pending[k].1.clone();
                proof {
                    text::lemma_pairs_push(out@, (name, task));
                }
                out.push((name, task));
            }
            assert(self@.desk.pending == before.desk.pending);
            k = k + 1;
        }
        assert(start.desk.pending.len() == self.desk.pending@.len());
        self.desk.pending = out;
    }
}

// ---------------------------------------------------------------------------
// What is asked for next
// ---------------------------------------------------------------------------

/// What has to happen outside before the run goes on.
pub enum Action {
    /// Nothing: the run was told something that it did not ask for.
    Nothing,
    /// Start the next turn, after a pause.
    NextTurn { wait_ms: u64 },
    /// Look at the plan: run the verify commands of a pass over it, and save
    /// it where the pass changed it.
    TickPlan,
    /// Have the model write a briefing.
    Summarize { user: String },
    /// Have the model generate commands. What it streams goes to `feed`.
    Ask { user: String, images: Vec<(String, String)>, think: bool },
    /// Dispatch the commands that had to wait for the end of the stream.
    Dispatch { commands: Vec<Cmd> },
    /// Wait for the background verify, if one is running.
    AwaitVerify,
    /// Have the model match the final report against the evidence.
    CheckClaims { user: String },
    /// Wait for all subagents.
    AwaitSubs,
    /// The run is over.
    End,
}

#[verifier::ext_equal]
pub enum ActionV {
    Nothing,
    NextTurn { wait_ms: u64 },
    TickPlan,
    Summarize { user: Seq<char> },
    Ask { user: Seq<char>, images: Seq<(Seq<char>, Seq<char>)>, think: bool },
    Dispatch { commands: Seq<CmdV> },
    AwaitVerify,
    CheckClaims { user: Seq<char> },
    AwaitSubs,
    End,
}

impl View for Action {
    type V = ActionV;

    open spec fn view(&self) -> ActionV {
        match *self {
            Action::Nothing => ActionV::Nothing,
            Action::NextTurn { wait_ms } => ActionV::NextTurn { wait_ms },
            Action::TickPlan => ActionV::TickPlan,
            Action::Summarize { user } => ActionV::Summarize { user: user@ },
            Action::Ask { user, images, think } => ActionV::Ask {
                user: user@,
                images: pairs(images@),
                think,
            },
            Action::Dispatch { commands } => ActionV::Dispatch { commands: cmds(commands@) },
            Action::AwaitVerify => ActionV::AwaitVerify,
            Action::CheckClaims { user } => ActionV::CheckClaims { user: user@ },
            Action::AwaitSubs => ActionV::AwaitSubs,
            Action::End => ActionV::End,
        }
    }
}

/// On to the next turn.
pub open spec fn onward(r: RunV, wait_ms: u64) -> (RunV, ActionV) {
    (RunV { phase: Phase::Top, ..r }, ActionV::NextTurn { wait_ms })
}

/// The document of the current turn.
pub open spec fn doc_of(r: RunV, set: Setup) -> Seq<char> {
    rendered(r.rend, r.desk.log.entries, set.cfg.context, r.desk.turn, r.cpt as int)
}

/// The renderer once it has rendered that document.
pub open spec fn rend_after(r: RunV, set: Setup) -> RenderV {
    rendered_state(r.rend, r.desk.log.entries, set.cfg.context, r.cpt as int)
}

/// Whether the legend only announces new files; the full table is then part of
/// the seals.
pub open spec fn delta_legend(cfg: Config) -> bool {
    cfg.context.mode@ == "append"@ && cfg.context.compact@ == "model"@
}

/// What the model is sent. What changes as work progresses stands at the
/// bottom: anything that changed near the top would invalidate the provider's
/// prefix cache.
pub open spec fn request_of(r: RunV, set: Setup) -> Seq<char> {
    doc_of(r, set) + "\n"@ + legend_text(
        r.ws.files,
        if delta_legend(set.cfg) {
            r.n.legend_base as int
        } else {
            0
        },
    ) + r.plan_view + NO_PROSE_REMINDER@ + "## NOW\nNext commands:\n"@
}

/// The request for the next commands.
#[verifier::opaque]
pub open spec fn asked(r: RunV, set: Setup) -> (RunV, ActionV) {
    let user = request_of(r, set);
    let cost = held_sum(
        estimate(set.system@, r.cpt as int),
        estimate(user, r.cpt as int),
        usize::MAX as int,
    );
    let size = held_sum(
        byte_len(set.system@) as int,
        byte_len(user) as int,
        usize::MAX as int,
    );
    (
        RunV {
            desk: DeskV {
                images: Seq::empty(),
                loop_warned: false,
                think_req: None,
                done: None,
                edited: false,
                executed: 0,
                tool_us: 0,
                says: Seq::empty(),
                ..r.desk
            },
            rend: rend_after(r, set),
            rep: ReportV {
                sent_tokens: held_sum(
                    r.rep.sent_tokens as int,
                    cost,
                    usize::MAX as int,
                ) as usize,
                ..r.rep
            },
            lex: fresh(false),
            tail: Seq::empty(),
            n: Counts {
                legend_next: r.ws.files.len() as usize,
                think_left: if r.n.think_left > 0 {
                    (r.n.think_left - 1) as u32
                } else {
                    0
                },
                sent_bytes: size as usize,
                had_images: r.desk.images.len() > 0,
                ..r.n
            },
            phase: Phase::Stream,
            ..r
        },
        ActionV::Ask {
            user,
            images: r.desk.images,
            think: r.n.think_left > 0 && set.cfg.model.think is Some,
        },
    )
}

/// The size past which a completed plan step is worth a seal.
pub open spec fn phase_floor(cfg: CtxCfg) -> int {
    if cfg.compact_phase_tokens > 0 {
        cfg.compact_phase_tokens as int
    } else {
        cfg.budget_tokens as int / 3
    }
}

/// Whether the history is to be sealed now: over budget, or a plan step was
/// just completed and the document is past the phase floor.
pub open spec fn seal_wanted(r: RunV, set: Setup, phase_done: bool) -> bool {
    let ctx = set.cfg.context;
    let billed = if r.n.last_prompt > 0 {
        Some(billed_size(r.n.last_prompt))
    } else {
        None
    };
    let es = r.desk.log.entries;
    &&& ctx.compact@ == "model"@
    &&& is_seal_due(r.rend, es, ctx, ctx.budget_tokens as int, billed, r.cpt as int) || (phase_done
        && is_seal_due(r.rend, es, ctx, phase_floor(ctx), billed, r.cpt as int))
}

/// A billed number of tokens as a size.
pub open spec fn billed_size(tokens: u64) -> usize {
    if tokens > usize::MAX {
        usize::MAX
    } else {
        tokens as usize
    }
}

/// The run once the plan has been looked at: the history is sealed if that is
/// due, and then the model is asked.
#[verifier::opaque]
pub open spec fn after_plan(r: RunV, set: Setup, view: Seq<char>, phase_done: bool) -> (
    RunV,
    ActionV,
) {
    let r1 = RunV { plan_view: view, ..r };
    let r2 = if r1.desk.log.depth == 0 {
        RunV { desk: desk_emitted(r1.desk, EvV::Plan(view)), ..r1 }
    } else {
        r1
    };
    if seal_wanted(r2, set, phase_done) {
        (
            RunV { rend: rend_after(r2, set), phase: Phase::Seal, ..r2 },
            ActionV::Summarize { user: doc_of(r2, set) + COMPRESS@ },
        )
    } else {
        asked(r2, set)
    }
}

/// Rendering keeps the sealed part within the ledger.
proof fn lemma_rendered_sound(r: RunV, set: Setup)
    requires
        sound(r),
    ensures
        rend_after(r, set).sealed_upto <= r.desk.log.entries.len(),
{
}

/// Sealing keeps the sealed part within the ledger.
proof fn lemma_sealed_sound(st: RenderV, es: Seq<EntryV>, keep_last: int, summary: Seq<char>)
    requires
        st.sealed_upto <= es.len(),
        keep_last >= 0,
    ensures
        sealed(st, es, keep_last, summary).sealed_upto <= es.len(),
{
}

impl Run {
    fn ask(&mut self) -> (a: Action)
        requires
            old(self).wf(),
        ensures
            final(self).wf(),
            final(self).set == old(self).set,
            (final(self)@, a@) == asked(old(self)@, old(self).set),
    {
        proof {
            reveal(asked);
        }
        let ghost r0 = self@;
        proof {
            lemma_rendered_sound(r0, self.set);
        }
        let turn = self.desk.turn;
        let mut user = self.renderer.render(
            &self.desk.log.ledger,
            &self.set.cfg.context,
            turn,
            self.cpt_milli,
        );
        let delta = text::same(&self.set.cfg.context.mode, "append") && text::same(
            &self.set.cfg.context.compact,
            "model",
        );
        let legend = if delta {
            self.ws.legend_from(self.n.legend_base)
        } else {
            self.ws.legend()
        };
        user.append("\n");
        user.append(&legend);
        user.append(&self.plan_view);
        user.append(NO_PROSE_REMINDER);
        user.append("## NOW\nNext commands:\n");
        let cost = text::add_usize(
            ledger::est_tokens(&self.set.system, self.cpt_milli),
            ledger::est_tokens(&user, self.cpt_milli),
        );
        self.rep.sent_tokens = text::add_usize(self.rep.sent_tokens, cost);
        let size = text::add_usize(text::bytes_in(&self.set.system), text::bytes_in(&user));
        let mut images: Vec<(String, String)> = Vec::new();
        std::mem::swap(&mut images, &mut self.desk.images);
        let think = self.n.think_left > 0 && self.set.cfg.model.think.is_some();
        self.n.legend_next = self.ws.file_count();
        if self.n.think_left > 0 {
            self.n.think_left = self.n.think_left - 1;
        }
        self.n.sent_bytes = size;
        self.n.had_images = images.len() > 0;
        self.desk.loop_warned = false;
        self.desk.think_req = None;
        self.desk.done = None;
        self.desk.edited = false;
        self.desk.executed = 0;
        self.desk.tool_us = 0;
        self.desk.says = Vec::new();
        self.lexer = Lexer::new();
        self.tail = Vec::new();
        self.phase = Phase::Stream;
        assert(pairs(self.desk.images@) =~= Seq::<(Seq<char>, Seq<char>)>::empty());
        assert(texts(self.desk.says@) =~= Seq::<Seq<char>>::empty());
        assert(cmds(self.tail@) =~= Seq::<CmdV>::empty());
        assert(self@ =~= asked(r0, self.set).0);
        Action::Ask { user, images, think }
    }

    fn seal_now(&self, phase_done: bool) -> (b: bool)
        requires
            self.wf(),
        ensures
            b == seal_wanted(self@, self.set, phase_done),
    {
        let ctx = &self.set.cfg.context;
        if !text::same(&ctx.compact, "model") {
            return false;
        }
        let billed: Option<usize> = if self.n.last_prompt > 0 {
            if self.n.last_prompt > usize::MAX as u64 {
                Some(usize::MAX)
            } else {
                Some(self.n.last_prompt as usize)
            }
        } else {
            None
        };
        let floor: usize = if ctx.compact_phase_tokens > 0 {
            ctx.compact_phase_tokens
        } else {
            ctx.budget_tokens / 3
        };
        let es = &self.desk.log.ledger;
        self.renderer.seal_due(es, ctx, ctx.budget_tokens, billed, self.cpt_milli) || (phase_done
            && self.renderer.seal_due(es, ctx, floor, billed, self.cpt_milli))
    }

    fn plan_seen(&mut self, view: String, phase_done: bool) -> (a: Action)
        requires
            old(self).wf(),
        ensures
            final(self).wf(),
            final(self).set == old(self).set,
            (final(self)@, a@) == after_plan(old(self)@, old(self).set, view@, phase_done),
    {
        proof {
            reveal(after_plan);
        }
        if self.desk.log.depth == 0 {
            self.desk.log.emit(Ev::Plan(view.clone()));
        }
        self.plan_view = view;
        if self.seal_now(phase_done) {
            proof {
                lemma_rendered_sound(self@, self.set);
            }
            let turn = self.desk.turn;
            let mut user = self.renderer.render(
                &self.desk.log.ledger,
                &self.set.cfg.context,
                turn,
                self.cpt_milli,
            );
            user.append(COMPRESS);
            self.phase = Phase::Seal;
            Action::Summarize { user }
        } else {
            self.ask()
        }
    }
}

// ---------------------------------------------------------------------------
// The top of a turn
// ---------------------------------------------------------------------------

/// The log after messages of the user, which land as fresh task lines.
pub open spec fn steered(log: LogV, turn: u32, msgs: Seq<Seq<char>>) -> LogV
    decreases msgs.len(),
{
    if msgs.len() == 0 {
        log
    } else {
        recorded(steered(log, turn, msgs.drop_last()), Kind::Task, turn, msgs.last(), None)
    }
}

/// The run at the start of turn `i`, where it goes on: what came in meanwhile
/// has landed.
#[verifier::opaque]
pub open spec fn turned(
    r: RunV,
    set: Setup,
    i: u32,
    inbox: Seq<Seq<char>>,
    back: Seq<Option<ReportV>>,
    verify: Option<(bool, Seq<char>)>,
) -> RunV {
    let turn = held_sum(set.base as int, i as int, u32::MAX as int) as u32;
    let d1 = desk_emitted(DeskV { turn, ..r.desk }, EvV::Turn(i));
    let d2 = if d1.log.depth == 0 {
        DeskV { log: steered(d1.log, turn, inbox), ..d1 }
    } else {
        d1
    };
    let r2 = RunV { desk: d2, rep: ReportV { turns: i, ..r.rep }, ..r };
    let r3 = harvested(r2, back, false);
    match verify {
        Some((ok, text)) => verify_back(r3, set, ok, text),
        None => r3,
    }
}

/// The top of a turn: the turn limit, a request to stop, and then what came in
/// since the last turn.
#[verifier::opaque]
pub open spec fn topped(
    r: RunV,
    set: Setup,
    stopped: bool,
    inbox: Seq<Seq<char>>,
    back: Seq<Option<ReportV>>,
    verify: Option<(bool, Seq<char>)>,
) -> (RunV, ActionV) {
    let i = held_sum(r.n.turn as int, 1, u32::MAX as int) as u32;
    let r1 = RunV { n: Counts { turn: i, ..r.n }, ..r };
    if set.max_turns > 0 && i > set.max_turns {
        (RunV { phase: Phase::Over, ..r1 }, ActionV::End)
    } else if stopped {
        (ended(r1, "(stopped)"@), ActionV::End)
    } else {
        let r2 = turned(r1, set, i, inbox, back, verify);
        if set.cfg.plan.enforce {
            (RunV { phase: Phase::Plan, ..r2 }, ActionV::TickPlan)
        } else {
            after_plan(r2, set, ""@, false)
        }
    }
}

/// The run once the plan of a turn has been looked at.
#[verifier::opaque]
pub open spec fn plan_looked(r: RunV, set: Setup, news: PlanNewsV) -> (RunV, ActionV) {
    let before = dones_in(r.seen, r.seen.len() as int);
    let (r1, view, open) = planned(r, set, news);
    after_plan(r1, set, view, dones_in(r1.seen, r1.seen.len() as int) > before)
}

// ---------------------------------------------------------------------------
// Seals
// ---------------------------------------------------------------------------

/// Whether a briefing is at most half as long as what it replaces. Both sizes
/// are billed by the provider; 0 means that nothing was reported.
pub open spec fn shrank(s: StatsV) -> bool {
    s.prompt_tokens == 0 || s.completion_tokens * 2 <= s.prompt_tokens
}

/// The report with the provider's usage added.
pub open spec fn with_usage(rep: ReportV, s: StatsV) -> ReportV {
    ReportV {
        model_ms: held_sum(rep.model_ms as int, s.total_ms as int, u128::MAX as int) as u128,
        tok_in: held_sum(rep.tok_in as int, s.prompt_tokens as int, u64::MAX as int) as u64,
        tok_cached: held_sum(
            rep.tok_cached as int,
            match s.cached_tokens {
                Some(c) => c as int,
                None => 0,
            },
            u64::MAX as int,
        ) as u64,
        cached_reported: rep.cached_reported || s.cached_tokens is Some,
        tok_out: held_sum(rep.tok_out as int, s.completion_tokens as int, u64::MAX as int) as u64,
        ..rep
    }
}

/// The run once a briefing came back. A degenerate briefing, or one that does
/// not shrink the document, is never sealed in; folding is then structural.
/// The full legend is baked into the seal.
#[verifier::opaque]
pub open spec fn summarized(r: RunV, set: Setup, news: Option<(Seq<char>, StatsV)>) -> RunV {
    match news {
        None => r,
        Some((text, s)) => {
            let r1 = RunV { rep: with_usage(r.rep, s), ..r };
            let summary = cleaned(trimmed(text));
            let degenerate = s.finish_reason == Some("degenerate"@);
            let r2 = if degenerate {
                run_shown(r1, SEAL_SKIPPED@)
            } else {
                r1
            };
            let r3 = if !shrank(s) {
                run_shown(r2, SEAL_REJECTED@)
            } else {
                r2
            };
            if summary.len() > 0 && shrank(s) && !degenerate {
                let baked = trimmed(summary + "\n"@ + legend_text(r3.ws.files, 0));
                run_shown(
                    RunV {
                        rend: sealed(
                            r3.rend,
                            r3.desk.log.entries,
                            set.cfg.context.compact_keep_last as int,
                            baked,
                        ),
                        n: Counts { legend_base: r3.ws.files.len() as usize, ..r3.n },
                        rep: ReportV {
                            seals: held_sum(r3.rep.seals as int, 1, u32::MAX as int) as u32,
                            ..r3.rep
                        },
                        ..r3
                    },
                    SEAL_DONE@,
                )
            } else {
                r3
            }
        },
    }
}

/// Whether a text option is this text.
fn finished_as(r: &Option<String>, what: &str) -> (b: bool)
    ensures
        b == (opt_text(*r) == Some(what@)),
{
    match r {
        Some(t) => text::same(t, what),
        None => false,
    }
}

fn count_usage(rep: &mut Report, s: &StreamStats)
    ensures
        final(rep)@ == with_usage(old(rep)@, s@),
{
    rep.model_ms = text::add_u128(rep.model_ms, s.total_ms);
    rep.tok_in = text::add_u64(rep.tok_in, s.prompt_tokens);
    let cached: u64 = match s.cached_tokens {
        Some(c) => c,
        None => 0,
    };
    rep.tok_cached = text::add_u64(rep.tok_cached, cached);
    rep.cached_reported = rep.cached_reported || s.cached_tokens.is_some();
    rep.tok_out = text::add_u64(rep.tok_out, s.completion_tokens);
}

/// A verify result, as the contracts see it.
pub open spec fn outcome(v: Option<(bool, String)>) -> Option<(bool, Seq<char>)> {
    match v {
        Some((ok, t)) => Some((ok, t@)),
        None => None,
    }
}

/// A reply of the model, as the contracts see it.
pub open spec fn reply(v: Option<(String, StreamStats)>) -> Option<(Seq<char>, StatsV)> {
    match v {
        Some((t, s)) => Some((t@, s@)),
        None => None,
    }
}

impl Run {
    fn steer(&mut self, turn: u32, inbox: &Vec<String>)
        requires
            old(self).wf(),
        ensures
            final(self).wf(),
            final(self).set == old(self).set,
            final(self)@ == (RunV {
                desk: DeskV {
                    log: steered(old(self)@.desk.log, turn, texts(inbox@)),
                    ..old(self)@.desk
                },
                ..old(self)@
            }),
    {
        let ghost r0 = self@;
        let ghost all = texts(inbox@);
        let mut k: usize = 0;
        assert(all.take(0) =~= Seq::<Seq<char>>::empty());
        while k < inbox.len()
            invariant
                k <= inbox@.len(),
                self.wf(),
                self.set == old(self).set,
                all == texts(inbox@),
                r0 == old(self)@,
                self@ == (RunV {
                    desk: DeskV {
                        log: steered(r0.desk.log, turn, all.take(k as int)),
                        ..r0.desk
                    },
                    ..r0
                }),
            decreases inbox@.len() - k,
        {
            proof {
                assert(all.take(k + 1).drop_last() =~= all.take(k as int));
                assert(all.take(k + 1).last() == inbox@[k as int]@);
            }
            self.desk.log.push(Kind::Task, turn, inbox[k].clone(), None);
            k = k + 1;
        }
        assert(all.take(all.len() as int) =~= all);
    }

    fn begin_turn(
        &mut self,
        i: u32,
        inbox: Vec<String>,
        back: Vec<Option<Report>>,
        verify: Option<(bool, String)>,
    )
        requires
            old(self).wf(),
        ensures
            final(self).wf(),
            final(self).set == old(self).set,
            final(self)@ == turned(
                old(self)@,
                old(self).set,
                i,
                texts(inbox@),
                reports(back@),
                outcome(verify),
            ),
    {
        proof {
            reveal(turned);
        }
        let turn: u32 = text::add_u32(self.set.base, i);
        self.rep.turns = i;
        self.desk.turn = turn;
        self.desk.log.emit(Ev::Turn(i));
        if self.desk.log.depth == 0 {
            self.steer(turn, &inbox);
        }
        self.harvest_all(&back, false);
        if let Some((ok, text)) = verify {
            self.verify_returned(ok, text);
        }
    }

    fn on_turn(
        &mut self,
        stopped: bool,
        inbox: Vec<String>,
        back: Vec<Option<Report>>,
        verify: Option<(bool, String)>,
    ) -> (a: Action)
        requires
            old(self).wf(),
        ensures
            final(self).wf(),
            final(self).set == old(self).set,
            (final(self)@, a@) == topped(
                old(self)@,
                old(self).set,
                stopped,
                texts(inbox@),
                reports(back@),
                outcome(verify),
            ),
    {
        proof {
            reveal(topped);
        }
        let i: u32 = text::add_u32(self.n.turn, 1);
        self.n.turn = i;
        if self.set.max_turns > 0 && i > self.set.max_turns {
            self.phase = Phase::Over;
            return Action::End;
        }
        if stopped {
            self.end("(stopped)".to_string());
            return Action::End;
        }
        self.begin_turn(i, inbox, back, verify);
        if self.set.cfg.plan.enforce {
            self.phase = Phase::Plan;
            Action::TickPlan
        } else {
            self.plan_seen("".to_string(), false)
        }
    }

    fn on_plan(&mut self, news: PlanNews) -> (a: Action)
        requires
            old(self).wf(),
        ensures
            final(self).wf(),
            final(self).set == old(self).set,
            (final(self)@, a@) == plan_looked(old(self)@, old(self).set, news@),
    {
        proof {
            reveal(plan_looked);
        }
        let before = self.count_dones();
        let (view, _open) = self.take_plan(news);
        let now = self.count_dones();
        self.plan_seen(view, now > before)
    }

    fn on_summary(&mut self, news: Option<(String, StreamStats)>) -> (a: Action)
        requires
            old(self).wf(),
        ensures
            final(self).wf(),
            final(self).set == old(self).set,
            (final(self)@, a@) == asked(
                summarized(old(self)@, old(self).set, reply(news)),
                old(self).set,
            ),
    {
        proof {
            reveal(asked);
            reveal(summarized);
        }
        if let Some((text, s)) = news {
            count_usage(&mut self.rep, &s);
            let summary = agent::clean_final(&text::trim(&text));
            let degenerate = finished_as(&s.finish_reason, "degenerate");
            if degenerate {
                self.show(SEAL_SKIPPED.to_string());
            }
            let small = s.prompt_tokens == 0 || s.completion_tokens <= s.prompt_tokens / 2;
            if !small {
                self.show(SEAL_REJECTED.to_string());
            }
            if !text::empty(&summary) && small && !degenerate {
                let mut baked = summary;
                baked.append("\n");
                let legend = self.ws.legend();
                baked.append(&legend);
                let baked = text::trim(&baked);
                proof {
                    lemma_sealed_sound(
                        self@.rend,
                        self@.desk.log.entries,
                        self.set.cfg.context.compact_keep_last as int,
                        baked@,
                    );
                }
                self.renderer.seal_summary(
                    &self.desk.log.ledger,
                    self.set.cfg.context.compact_keep_last,
                    baked,
                );
                self.n.legend_base = self.ws.file_count();
                self.rep.seals = text::add_u32(self.rep.seals, 1);
                self.show(SEAL_DONE.to_string());
            }
        }
        self.ask()
    }
}

// ---------------------------------------------------------------------------
// The stream
// ---------------------------------------------------------------------------

/// Whether a command waits for the end of the stream.
pub open spec fn waits(c: CmdV) -> bool {
    c is Say || c is Done
}

/// Those of the first `n` commands that wait, or those that do not.
pub open spec fn parted(v: Seq<CmdV>, waiting: bool, n: int) -> Seq<CmdV>
    decreases n,
{
    if n <= 0 {
        Seq::empty()
    } else if waits(v[n - 1]) == waiting {
        parted(v, waiting, n - 1).push(v[n - 1])
    } else {
        parted(v, waiting, n - 1)
    }
}

/// The run after a chunk of the stream, and the commands that run at once.
pub open spec fn fed(r: RunV, delta: Seq<char>) -> (RunV, Seq<CmdV>) {
    let d = if r.desk.log.depth == 0 {
        desk_emitted(r.desk, EvV::Delta(delta))
    } else {
        r.desk
    };
    let (lex, out) = lexed(r.lex, delta);
    (
        RunV { desk: d, lex, tail: r.tail + parted(out, true, out.len() as int), ..r },
        parted(out, false, out.len() as int),
    )
}

/// How long to wait before a retry: half a second, doubling up to four.
pub open spec fn backoff_ms(errs: u32) -> u64 {
    if errs <= 1 {
        500
    } else if errs == 2 {
        1000
    } else if errs == 3 {
        2000
    } else {
        4000
    }
}

pub open spec fn endpoint_end(errs: u32, base_url: Seq<char>) -> Seq<char> {
    "(aborted: the model endpoint failed "@ + decimal(errs as nat)
        + " times in a row — is the server at "@ + base_url + " up?)"@
}

/// The run after a failure of the endpoint. Hiccups do not burn turns: the
/// same turn is tried again, until the sixth failure in a row.
#[verifier::opaque]
pub open spec fn stream_failed(r: RunV, set: Setup, e: Seq<char>) -> (RunV, ActionV) {
    let errs = held_sum(r.n.errs as int, 1, u32::MAX as int) as u32;
    let r1 = run_noted(RunV { n: Counts { errs, ..r.n }, ..r }, "model error: "@ + e);
    if errs >= MAX_ERRORS {
        (ended(r1, endpoint_end(errs, set.cfg.model.base_url@)), ActionV::End)
    } else {
        onward(
            RunV {
                n: Counts {
                    turn: if r1.n.turn > 0 {
                        (r1.n.turn - 1) as u32
                    } else {
                        0
                    },
                    ..r1.n
                },
                ..r1
            },
            backoff_ms(errs),
        )
    }
}

/// The run with what the provider reported of a reply.
#[verifier::opaque]
pub open spec fn billed(r: RunV, set: Setup, s: StatsV) -> RunV {
    let paid = s.prompt_tokens > 0;
    let rep = with_usage(r.rep, s);
    RunV {
        desk: if paid && r.desk.log.depth == 0 {
            desk_emitted(r.desk, EvV::Ctx(s.prompt_tokens))
        } else {
            r.desk
        },
        n: Counts {
            errs: 0,
            legend_base: if delta_legend(set.cfg) {
                r.n.legend_next
            } else {
                r.n.legend_base
            },
            last_prompt: if paid {
                s.prompt_tokens
            } else {
                r.n.last_prompt
            },
            ..r.n
        },
        cpt: if paid && !r.n.had_images {
            calibrated(r.cpt as int, r.n.sent_bytes as int, s.prompt_tokens as int) as usize
        } else {
            r.cpt
        },
        rep: ReportV {
            ttft_ms_sum: held_sum(rep.ttft_ms_sum as int, s.ttft_ms as int, u128::MAX as int) as u128,
            out_chars: held_sum(rep.out_chars as int, s.out_chars as int, usize::MAX as int) as usize,
            ..rep
        },
        ..r
    }
}

/// The run once the stream is closed: what the end completes joins the
/// commands that wait, and work that a D swallowed is rescued.
#[verifier::opaque]
pub open spec fn closed_stream(r: RunV, set: Setup) -> RunV {
    let (lex, out) = lexed_end(r.lex);
    RunV { lex, tail: rescued(set.cfg, r.tail + out), ..r }
}

/// Collapse notes are all different: stacking identical lines would itself
/// invite repetition.
pub open spec fn collapse_note(n: u32) -> Seq<char> {
    if n == 1 {
        COLLAPSE_1@
    } else if n == 2 {
        COLLAPSE_2@
    } else {
        "(repetition collapse #"@ + decimal(n as nat)
            + " — emit a single tiny command, nothing else)"@
    }
}

/// The first `n` commands without any D.
pub open spec fn without_done(v: Seq<CmdV>, n: int) -> Seq<CmdV>
    decreases n,
{
    if n <= 0 {
        Seq::empty()
    } else if v[n - 1] is Done {
        without_done(v, n - 1)
    } else {
        without_done(v, n - 1).push(v[n - 1])
    }
}

/// The run after one more collapse: deliberation may be armed, the model is
/// told, and a D is dropped, whose message may be full of spam.
#[verifier::opaque]
pub open spec fn collapsed(r: RunV, set: Setup) -> RunV {
    let d = held_sum(r.n.degens as int, 1, u32::MAX as int) as u32;
    let r1 = RunV { n: Counts { degens: d, ..r.n }, ..r };
    let r2 = if d >= think_after(set.cfg) {
        let (r2, newly) = escalated(r1, set, "collapse"@);
        if newly {
            run_noted(r2, THINK_COLLAPSE@)
        } else {
            r2
        }
    } else {
        r1
    };
    let r3 = run_noted(r2, collapse_note(d));
    RunV { tail: without_done(r3.tail, r3.tail.len() as int), ..r3 }
}

pub open spec fn lost_note(n: nat) -> Seq<char> {
    "("@ + decimal(n) + " plain-prose line"@ + (if n == 1 {
        " was"@
    } else {
        "s were"@
    }) + PROSE_LOST@
}

/// Whether all of these commands talk to the user.
pub open spec fn all_talk(v: Seq<CmdV>) -> bool {
    forall|i: int| 0 <= i < v.len() ==> #[trigger] v[i] is Say
}

/// What is said by commands that all talk.
pub open spec fn said(v: Seq<CmdV>) -> Seq<Seq<char>> {
    v.map_values(|c: CmdV| c->Say_text)
}

pub open spec fn talk_end(n: u32) -> Seq<char> {
    "(ended: "@ + decimal(n as nat)
        + " turns of narration with no commands run — the task was not attempted)"@
}

/// Whether the turn only talked: nothing ran, nothing is out, and all that is
/// left to dispatch is S.
pub open spec fn talk_only(r: RunV) -> bool {
    r.desk.executed == 0 && r.desk.pending.len() == 0 && r.tail.len() > 0 && all_talk(r.tail)
}

/// The run before its deferred commands are dispatched. S never ends the run,
/// so a model that only narrates is handed back after a few turns, at once if
/// it repeats itself; until then it is nudged.
#[verifier::opaque]
pub open spec fn settled(r: RunV, length_capped: bool, rescued_prose: bool) -> (RunV, ActionV) {
    let r1 = if r.lex.dropped > 0 && !rescued_prose {
        run_noted(r, lost_note(r.lex.dropped))
    } else {
        r
    };
    let commands = r1.tail;
    if talk_only(r1) {
        let h = hash_of(joined(said(commands), "\n"@));
        let t = if h == r1.n.last_talk {
            MAX_TALK_TURNS
        } else {
            held_sum(r1.n.talk as int, 1, u32::MAX as int) as u32
        };
        let handback = t >= MAX_TALK_TURNS;
        (
            RunV {
                desk: if handback {
                    DeskV { done: Some(talk_end(t)), ..r1.desk }
                } else {
                    r1.desk
                },
                tail: Seq::empty(),
                n: Counts { talk: t, last_talk: h, ..r1.n },
                phase: Phase::Tail { nudge: !handback, length_capped, handback },
                ..r1
            },
            ActionV::Dispatch { commands },
        )
    } else {
        (
            RunV {
                tail: Seq::empty(),
                n: Counts { talk: 0, ..r1.n },
                phase: Phase::Tail { nudge: false, length_capped, handback: false },
                ..r1
            },
            ActionV::Dispatch { commands },
        )
    }
}

/// The run once it is known whether the turn did anything. Prose of a turn
/// that did no work is delivered to the user instead of being lost; a turn
/// without any command counts toward the abort.
#[verifier::opaque]
pub open spec fn prosed(r: RunV, length_capped: bool) -> (RunV, ActionV) {
    let prose = trimmed(r.lex.dropped_text);
    let full = Counts { empty: 0, ..r.n };
    if r.desk.executed == 0 && prose.len() > 0 {
        settled(
            run_noted(
                RunV { tail: r.tail.push(CmdV::Say { text: prose }), n: full, ..r },
                PROSE_RESCUED@,
            ),
            length_capped,
            true,
        )
    } else if r.desk.executed == 0 && r.tail.len() == 0 {
        let e = held_sum(r.n.empty as int, 1, u32::MAX as int) as u32;
        let r1 = RunV { n: Counts { empty: e, ..r.n }, ..r };
        if e >= MAX_EMPTY_TURNS {
            (ended(r1, EMPTY_END@), ActionV::End)
        } else {
            onward(RunV { desk: desk_recorded(r1.desk, Kind::Result, EMPTY_NOTE@), ..r1 }, 0)
        }
    } else {
        settled(RunV { n: full, ..r }, length_capped, false)
    }
}

/// The run once the model has replied.
#[verifier::opaque]
pub open spec fn replied(r: RunV, set: Setup, s: StatsV) -> (RunV, ActionV) {
    let r1 = closed_stream(billed(r, set, s), set);
    let length_capped = s.finish_reason == Some("length"@);
    if s.finish_reason == Some("degenerate"@) {
        let r2 = collapsed(r1, set);
        if r2.n.degens >= MAX_COLLAPSES {
            (ended(r2, COLLAPSE_END@), ActionV::End)
        } else if r2.desk.executed == 0 && r2.tail.len() == 0 {
            onward(r2, 0)
        } else {
            prosed(r2, length_capped)
        }
    } else {
        prosed(RunV { n: Counts { degens: 0, ..r1.n }, ..r1 }, length_capped)
    }
}

/// The run once the stream is over.
#[verifier::opaque]
pub open spec fn streamed(
    r: RunV,
    set: Setup,
    render_us: u128,
    result: Result<StatsV, Seq<char>>,
) -> (RunV, ActionV) {
    let r1 = RunV {
        rep: ReportV {
            render_us: held_sum(r.rep.render_us as int, render_us as int, u128::MAX as int) as u128,
            ..r.rep
        },
        ..r
    };
    match result {
        Ok(s) => replied(r1, set, s),
        Err(e) => stream_failed(r1, set, e),
    }
}

/// The result of a stream, as the contracts see it.
pub open spec fn stream_result(v: Result<StreamStats, String>) -> Result<StatsV, Seq<char>> {
    match v {
        Ok(s) => Ok(s@),
        Err(e) => Err(e@),
    }
}

impl Run {
    /// Takes in a chunk of the stream and returns the commands to dispatch at
    /// once. S and D wait for the end; every other command runs the moment it
    /// is complete, while the model is still generating.
    pub fn feed(&mut self, delta: &str) -> (now: Vec<Cmd>)
        requires
            old(self).wf(),
        ensures
            final(self).wf(),
            final(self).set == old(self).set,
            (final(self)@, cmds(now@)) == fed(old(self)@, delta@),
    {
        let ghost r0 = self@;
        if self.desk.log.depth == 0 {
            self.desk.log.emit(Ev::Delta(delta.to_owned()));
        }
        let mut out: Vec<Cmd> = Vec::new();
        self.lexer.feed(delta, &mut out);
        let ghost all = lexed(r0.lex, delta@).1;
        assert(cmds(Seq::<Cmd>::empty()) + all =~= all);
        let ghost mid = self@;
        let mut now: Vec<Cmd> = Vec::new();
        let mut rest = out;
        proof {
            assert(r0.tail + parted(all, true, 0) =~= r0.tail);
            assert(cmds(now@) =~= parted(all, false, 0));
        }
        let mut held: Vec<Cmd> = Vec::new();
        // Commands come off the end, so they are turned round first.
        while rest.len() > 0
            invariant
                rest@.len() + held@.len() == all.len(),
                cmds(rest@) == all.take(rest@.len() as int),
                forall|i: int|
                    0 <= i < held@.len() ==> (#[trigger] held@[i])@ == all[all.len() - 1 - i],
            decreases rest@.len(),
        {
            let ghost before = rest@;
            if let Some(c) = rest.pop() {
                assert(cmds(before)[before.len() - 1] == c@);
                assert(cmds(rest@) =~= all.take(rest@.len() as int)) by {
                    assert(forall|i: int|
                        0 <= i < rest@.len() ==> cmds(rest@)[i] == cmds(before)[i]);
                }
                held.push(c);
            }
        }
        while held.len() > 0
            invariant
                held@.len() <= all.len(),
                self.wf(),
                self.set == old(self).set,
                forall|i: int|
                    0 <= i < held@.len() ==> (#[trigger] held@[i])@ == all[all.len() - 1 - i],
                cmds(now@) == parted(all, false, all.len() - held@.len()),
                self@ == (RunV {
                    tail: r0.tail + parted(all, true, all.len() - held@.len()),
                    ..mid
                }),
            decreases held@.len(),
        {
            let ghost k = all.len() - held@.len();
            let ghost tail0 = self.tail@;
            let ghost now0 = now@;
            assert(held@[held@.len() - 1]@ == all[k as int]);
            if let Some(c) = held.pop() {
                proof {
                    lemma_cmds_push(tail0, c);
                    lemma_cmds_push(now0, c);
                }
                if matches!(&c, Cmd::Say { .. } | Cmd::Done { .. }) {
                    self.tail.push(c);
                    assert(r0.tail + parted(all, true, k + 1) =~= (r0.tail + parted(
                        all,
                        true,
                        k as int,
                    )).push(all[k as int]));
                } else {
                    now.push(c);
                }
            }
        }
        now
    }
}

impl Run {
    fn on_failed(&mut self, e: String) -> (a: Action)
        requires
            old(self).wf(),
        ensures
            final(self).wf(),
            final(self).set == old(self).set,
            (final(self)@, a@) == stream_failed(old(self)@, old(self).set, e@),
    {
        proof {
            reveal(stream_failed);
        }
        let errs: u32 = text::add_u32(self.n.errs, 1);
        self.n.errs = errs;
        let mut t = "model error: ".to_string();
        t.append(&e);
        self.note(t);
        if errs >= MAX_ERRORS {
            let mut msg = "(aborted: the model endpoint failed ".to_string();
            let n = text::dec(errs as u64);
            msg.append(&n);
            msg.append(" times in a row — is the server at ");
            msg.append(&self.set.cfg.model.base_url);
            msg.append(" up?)");
            self.end(msg);
            return Action::End;
        }
        if self.n.turn > 0 {
            self.n.turn = self.n.turn - 1;
        }
        self.phase = Phase::Top;
        let wait_ms: u64 = if errs <= 1 {
            500
        } else if errs == 2 {
            1000
        } else if errs == 3 {
            2000
        } else {
            4000
        };
        Action::NextTurn { wait_ms }
    }

    fn bill(&mut self, s: &StreamStats)
        requires
            old(self).wf(),
        ensures
            final(self).wf(),
            final(self).set == old(self).set,
            final(self)@ == billed(old(self)@, old(self).set, s@),
    {
        proof {
            reveal(billed);
        }
        self.n.errs = 0;
        if text::same(&self.set.cfg.context.mode, "append") && text::same(
            &self.set.cfg.context.compact,
            "model",
        ) {
            self.n.legend_base = self.n.legend_next;
        }
        if s.prompt_tokens > 0 {
            self.n.last_prompt = s.prompt_tokens;
            if !self.n.had_images {
                self.cpt_milli = ledger::calibrate(self.cpt_milli, self.n.sent_bytes, s.prompt_tokens);
            }
            if self.desk.log.depth == 0 {
                self.desk.log.emit(Ev::Ctx(s.prompt_tokens));
            }
        }
        count_usage(&mut self.rep, s);
        self.rep.ttft_ms_sum = text::add_u128(self.rep.ttft_ms_sum, s.ttft_ms);
        self.rep.out_chars = text::add_usize(self.rep.out_chars, s.out_chars);
    }

    fn close_stream(&mut self)
        requires
            old(self).wf(),
        ensures
            final(self).wf(),
            final(self).set == old(self).set,
            final(self)@ == closed_stream(old(self)@, old(self).set),
    {
        proof {
            reveal(closed_stream);
        }
        let mut out: Vec<Cmd> = Vec::new();
        std::mem::swap(&mut out, &mut self.tail);
        self.lexer.finish(&mut out);
        self.tail = agent::rescue_done(out, &self.set.cfg);
    }

    fn drop_done(&mut self)
        requires
            old(self).wf(),
        ensures
            final(self).wf(),
            final(self).set == old(self).set,
            final(self)@ == (RunV {
                tail: without_done(old(self)@.tail, old(self)@.tail.len() as int),
                ..old(self)@
            }),
    {
        let ghost r0 = self@;
        let ghost all = self@.tail;
        let mut i: usize = 0;
        let ghost mut k: int = 0;
        while i < self.tail.len()
            invariant
                0 <= k <= all.len(),
                all == r0.tail,
                i <= self.tail@.len(),
                self.tail@.len() - i == all.len() - k,
                self.wf(),
                self.set == old(self).set,
                self@ == (RunV { tail: cmds(self.tail@), ..r0 }),
                cmds(self.tail@).take(i as int) == without_done(all, k),
                forall|j: int|
                    i <= j < self.tail@.len() ==> (#[trigger] self.tail@[j])@ == all[j - i + k],
            decreases all.len() - k,
        {
            assert(self.tail@[i as int]@ == all[k]);
            let ghost before = self.tail@;
            if matches!(&self.tail[i], Cmd::Done { .. }) {
                self.tail.remove(i);
                assert(cmds(self.tail@).take(i as int) =~= cmds(before).take(i as int));
                assert forall|j: int| i <= j < self.tail@.len() implies (#[trigger] self.tail@[j])@
                    == all[j - i + k + 1] by {
                    assert(self.tail@[j] == before[j + 1]);
                }
            } else {
                assert(cmds(before).take(i + 1) =~= cmds(before).take(i as int).push(all[k]));
                i = i + 1;
            }
            proof {
                k = k + 1;
            }
        }
        assert(cmds(self.tail@).take(i as int) =~= cmds(self.tail@));
    }

    fn collapse(&mut self)
        requires
            old(self).wf(),
        ensures
            final(self).wf(),
            final(self).set == old(self).set,
            final(self)@ == collapsed(old(self)@, old(self).set),
    {
        proof {
            reveal(collapsed);
        }
        let d: u32 = text::add_u32(self.n.degens, 1);
        self.n.degens = d;
        if d >= self.after() {
            if self.escalate("collapse") {
                self.note(THINK_COLLAPSE.to_string());
            }
        }
        let t = if d == 1 {
            COLLAPSE_1.to_string()
        } else if d == 2 {
            COLLAPSE_2.to_string()
        } else {
            let mut t = "(repetition collapse #".to_string();
            let n = text::dec(d as u64);
            t.append(&n);
            t.append(" — emit a single tiny command, nothing else)");
            t
        };
        self.note(t);
        self.drop_done();
    }

    fn only_talk(&self) -> (b: bool)
        ensures
            b == talk_only(self@),
    {
        let mut all = true;
        let mut i: usize = 0;
        while i < self.tail.len() && all
            invariant
                i <= self.tail@.len(),
                all == (forall|j: int| 0 <= j < i ==> #[trigger] cmds(self.tail@)[j] is Say),
            decreases self.tail@.len() - i,
        {
            assert(cmds(self.tail@)[i as int] == self.tail@[i as int]@);
            all = matches!(&self.tail[i], Cmd::Say { .. });
            i = i + 1;
        }
        self.desk.executed == 0 && self.desk.pending.len() == 0 && self.tail.len() > 0 && all
    }

    fn talk_hash(&self) -> (h: u64)
        requires
            all_talk(self@.tail),
        ensures
            h == hash_of(joined(said(self@.tail), "\n"@)),
    {
        let ghost all = self@.tail;
        let mut v: Vec<String> = Vec::new();
        let mut i: usize = 0;
        while i < self.tail.len()
            invariant
                i <= self.tail@.len(),
                all == cmds(self.tail@),
                all_talk(all),
                texts(v@) == said(all).take(i as int),
            decreases self.tail@.len() - i,
        {
            assert(all[i as int] == self.tail@[i as int]@);
            if let Cmd::Say { text } = &self.tail[i] {
                let t = text.clone();
                proof {
                    text::lemma_texts_push(v@, t);
                    assert(said(all).take(i + 1) =~= said(all).take(i as int).push(t@));
                }
                v.push(t);
            }
            i = i + 1;
        }
        assert(said(all).take(i as int) =~= said(all));
        let joined_text = text::join(&v, "\n");
        ledger::fnv(&joined_text)
    }

    fn settle(&mut self, length_capped: bool, rescued_prose: bool) -> (a: Action)
        requires
            old(self).wf(),
        ensures
            final(self).wf(),
            final(self).set == old(self).set,
            (final(self)@, a@) == settled(old(self)@, length_capped, rescued_prose),
    {
        proof {
            reveal(settled);
        }
        let dropped = self.lexer.dropped_count();
        if dropped > 0 && !rescued_prose {
            let mut t = "(".to_string();
            let n = text::dec(dropped as u64);
            t.append(&n);
            t.append(" plain-prose line");
            t.append(
                if dropped == 1 {
                    " was"
                } else {
                    "s were"
                },
            );
            t.append(PROSE_LOST);
            self.note(t);
        }
        let mut nudge = false;
        let mut handback = false;
        if self.only_talk() {
            let h = self.talk_hash();
            let t: u32 = if h == self.n.last_talk {
                MAX_TALK_TURNS
            } else {
                text::add_u32(self.n.talk, 1)
            };
            self.n.talk = t;
            self.n.last_talk = h;
            if t >= MAX_TALK_TURNS {
                handback = true;
                let mut msg = "(ended: ".to_string();
                let n = text::dec(t as u64);
                msg.append(&n);
                msg.append(
                    " turns of narration with no commands run — the task was not attempted)",
                );
                self.desk.done = Some(msg);
            } else {
                nudge = true;
            }
        } else {
            self.n.talk = 0;
        }
        self.phase = Phase::Tail { nudge, length_capped, handback };
        let mut commands: Vec<Cmd> = Vec::new();
        std::mem::swap(&mut commands, &mut self.tail);
        assert(cmds(self.tail@) =~= Seq::<CmdV>::empty());
        Action::Dispatch { commands }
    }

    fn judge_prose(&mut self, length_capped: bool) -> (a: Action)
        requires
            old(self).wf(),
        ensures
            final(self).wf(),
            final(self).set == old(self).set,
            (final(self)@, a@) == prosed(old(self)@, length_capped),
    {
        proof {
            reveal(prosed);
        }
        let prose = text::trim(self.lexer.dropped_prose());
        if self.desk.executed == 0 && !text::empty(&prose) {
            self.n.empty = 0;
            proof {
                lemma_cmds_push(self.tail@, Cmd::Say { text: prose });
            }
            self.tail.push(Cmd::Say { text: prose });
            self.note(PROSE_RESCUED.to_string());
            return self.settle(length_capped, true);
        }
        if self.desk.executed == 0 && self.tail.len() == 0 {
            let e: u32 = text::add_u32(self.n.empty, 1);
            self.n.empty = e;
            if e >= MAX_EMPTY_TURNS {
                self.end(EMPTY_END.to_string());
                return Action::End;
            }
            let turn = self.desk.turn;
            self.desk.log.push(Kind::Result, turn, EMPTY_NOTE.to_string(), None);
            self.phase = Phase::Top;
            return Action::NextTurn { wait_ms: 0 };
        }
        self.n.empty = 0;
        self.settle(length_capped, false)
    }

    #[verifier::rlimit(60)]
    fn on_replied(&mut self, s: StreamStats) -> (a: Action)
        requires
            old(self).wf(),
        ensures
            final(self).wf(),
            final(self).set == old(self).set,
            (final(self)@, a@) == replied(old(self)@, old(self).set, s@),
    {
        proof {
            reveal(replied);
        }
        self.bill(&s);
        self.close_stream();
        let length_capped = finished_as(&s.finish_reason, "length");
        if finished_as(&s.finish_reason, "degenerate") {
            self.collapse();
            if self.n.degens >= MAX_COLLAPSES {
                self.end(COLLAPSE_END.to_string());
                return Action::End;
            }
            if self.desk.executed == 0 && self.tail.len() == 0 {
                self.phase = Phase::Top;
                return Action::NextTurn { wait_ms: 0 };
            }
        } else {
            self.n.degens = 0;
        }
        self.judge_prose(length_capped)
    }

    fn on_streamed(&mut self, render_us: u128, result: Result<StreamStats, String>) -> (a: Action)
        requires
            old(self).wf(),
        ensures
            final(self).wf(),
            final(self).set == old(self).set,
            (final(self)@, a@) == streamed(
                old(self)@,
                old(self).set,
                render_us,
                stream_result(result),
            ),
    {
        proof {
            reveal(streamed);
        }
        self.rep.render_us = text::add_u128(self.rep.render_us, render_us);
        match result {
            Ok(s) => self.on_replied(s),
            Err(e) => self.on_failed(e),
        }
    }
}

// ---------------------------------------------------------------------------
// The end of a turn
// ---------------------------------------------------------------------------

pub open spec fn think_note(why: Seq<char>) -> Seq<char> {
    "(deliberation on for the next turns — your reason: "@ + clipped(why, 200) + ")"@
}

/// The run once a request for deliberation has been answered: it needs the
/// trigger, and it is granted twice per run.
#[verifier::opaque]
pub open spec fn thought(r: RunV, set: Setup) -> RunV {
    match r.desk.think_req {
        None => r,
        Some(why) => {
            let r1 = RunV { desk: DeskV { think_req: None, ..r.desk }, ..r };
            if !think_on(set.cfg, "request"@) {
                run_noted(r1, B_IGNORED@)
            } else if r1.n.think_reqs >= 2 {
                run_noted(r1, B_REFUSED@)
            } else {
                run_noted(
                    escalated(
                        RunV { n: Counts { think_reqs: (r1.n.think_reqs + 1) as u32, ..r1.n }, ..r1 },
                        set,
                        "request"@,
                    ).0,
                    think_note(why),
                )
            }
        },
    }
}

/// The run with the turn's work counted, the loop breaker's signal followed,
/// a request for deliberation answered, and the check after edits requested.
#[verifier::opaque]
pub open spec fn tallied(r: RunV, set: Setup, nudge: bool) -> RunV {
    let r1 = if nudge {
        run_noted(r, NUDGE@)
    } else {
        r
    };
    let r2 = RunV {
        rep: ReportV {
            commands: held_sum(
                r1.rep.commands as int,
                r1.desk.executed as int,
                usize::MAX as int,
            ) as usize,
            tool_ms: held_sum(
                r1.rep.tool_ms as int,
                r1.desk.tool_us as int / 1000,
                u128::MAX as int,
            ) as u128,
            ..r1.rep
        },
        ..r1
    };
    let r3 = if r2.desk.loop_warned {
        let (r3, newly) = escalated(r2, set, "loop_warn"@);
        if newly {
            run_noted(r3, THINK_LOOP@)
        } else {
            r3
        }
    } else {
        r2
    };
    let r4 = thought(r3, set);
    RunV { verify_wanted: r4.desk.edited && set.cfg.verify.cmd is Some, ..r4 }
}

/// Whether a final message only repeats something said.
pub open spec fn echoes(said_text: Seq<char>, d: Seq<char>) -> bool {
    let s = lowered(trimmed(said_text));
    s == d || begins(s, d) || begins(d, s)
}

/// Whether a final message only repeats what the turn said.
pub open spec fn is_echo(says: Seq<Seq<char>>, msg: Seq<char>) -> bool {
    let d = lowered(cleaned(msg));
    d.len() > 0 && exists|i: int| 0 <= i < says.len() && echoes(#[trigger] says[i], d)
}

pub open spec fn bounce_note(n: nat) -> Seq<char> {
    "(D refused — "@ + decimal(n) + BOUNCE@
}

/// The message the run ends with.
pub open spec fn done_msg(r: RunV) -> Seq<char> {
    match r.desk.done {
        Some(m) => m,
        None => ""@,
    }
}

/// The run finished with its final message.
pub open spec fn finished(r: RunV) -> (RunV, ActionV) {
    let m = cleaned(done_msg(r));
    let msg = if m.len() == 0 {
        "done."@
    } else {
        m
    };
    (
        ended(RunV { desk: desk_recorded(r.desk, Kind::Final, msg), ..r }, msg),
        ActionV::End,
    )
}

pub open spec fn waiting_note(n: nat) -> Seq<char> {
    "(waiting on "@ + decimal(n) + " subagent"@ + (if n == 1 {
        ""@
    } else {
        "s"@
    }) + " before finishing…)"@
}

/// The last gate: a run does not finish while subagents are out.
pub open spec fn gate_subs(r: RunV) -> (RunV, ActionV) {
    if r.desk.pending.len() > 0 {
        (
            RunV { phase: Phase::Subs, ..run_shown(r, waiting_note(r.desk.pending.len())) },
            ActionV::AwaitSubs,
        )
    } else {
        finished(r)
    }
}

/// How many of the first `n` entries are results that errored.
pub open spec fn errors_in(es: Seq<EntryV>, n: int) -> nat
    decreases n,
{
    if n <= 0 {
        0
    } else if es[n - 1].kind == Kind::Result && begins(es[n - 1].text, "err:"@) {
        errors_in(es, n - 1) + 1
    } else {
        errors_in(es, n - 1)
    }
}

/// What the run did, as the claim check is told.
pub open spec fn evidence(r: RunV) -> Seq<char> {
    "- files created or modified this run: "@ + (if r.ws.written.len() == 0 {
        "NONE"@
    } else {
        joined(r.ws.written, ", "@)
    }) + "\n- commands executed: "@ + decimal(r.rep.commands as nat)
        + "\n- tool results that errored: "@ + decimal(
        errors_in(r.desk.log.entries, r.desk.log.entries.len() as int),
    ) + "\n"@
}

/// What the claim check asks.
pub open spec fn claims_request(r: RunV, set: Setup) -> Seq<char> {
    doc_of(r, set) + CHECK_HEAD@ + cleaned(done_msg(r)) + "\n---\nEvidence from the run:\n"@
        + evidence(r) + CHECK_TAIL@
}

/// A report is matched against the evidence. It is refused twice at most: a
/// model that objects wrongly must not trap the run.
#[verifier::opaque]
pub open spec fn gate_claims(r: RunV, set: Setup) -> (RunV, ActionV) {
    if set.cfg.verify.claims && r.desk.log.depth == 0 && r.n.claims < 2 {
        (
            RunV { rend: rend_after(r, set), phase: Phase::Claims, ..r },
            ActionV::CheckClaims { user: claims_request(r, set) },
        )
    } else {
        gate_subs(r)
    }
}

/// The plan is looked at once more, so that statuses changed this turn are
/// verified.
pub open spec fn gate_plan(r: RunV, set: Setup) -> (RunV, ActionV) {
    if set.cfg.plan.enforce {
        (RunV { phase: Phase::GatePlan, ..r }, ActionV::TickPlan)
    } else {
        gate_claims(r, set)
    }
}

/// What a D meets first. A handback after a talk cap skips the gates on a
/// report: it is no claim of completion.
#[verifier::opaque]
pub open spec fn gates(r: RunV, handback: bool) -> (RunV, ActionV) {
    if handback {
        gate_subs(r)
    } else if r.lex.dropped >= 3 && r.n.bounces < 3 {
        onward(
            run_noted(
                RunV { n: Counts { bounces: (r.n.bounces + 1) as u32, ..r.n }, ..r },
                bounce_note(r.lex.dropped),
            ),
            0,
        )
    } else if is_echo(r.desk.says, done_msg(r)) {
        onward(run_noted(r, ECHO@), 0)
    } else {
        (RunV { phase: Phase::Verify, ..r }, ActionV::AwaitVerify)
    }
}

/// The run once the deferred commands of the turn have been dispatched.
#[verifier::opaque]
pub open spec fn turn_over(
    r: RunV,
    set: Setup,
    nudge: bool,
    length_capped: bool,
    handback: bool,
) -> (RunV, ActionV) {
    let r1 = tallied(r, set, nudge);
    if r1.desk.refusals >= MAX_REFUSALS {
        (ended(r1, STUCK_END@), ActionV::End)
    } else {
        let r2 = if length_capped {
            run_noted(r1, LENGTH_NOTE@)
        } else {
            r1
        };
        if r2.desk.done is None {
            onward(r2, 0)
        } else {
            gates(r2, handback)
        }
    }
}

/// The run once a D has waited for the background verify: a failing check
/// refuses it.
#[verifier::opaque]
pub open spec fn verify_joined(r: RunV, set: Setup, verify: Option<(bool, Seq<char>)>) -> (
    RunV,
    ActionV,
) {
    match verify {
        None => gate_plan(r, set),
        Some((ok, text)) => {
            let r1 = run_noted(r, text);
            if ok {
                gate_plan(r1, set)
            } else {
                onward(
                    failed(run_noted(r1, VERIFY_REFUSED@), set, "@verify"@, THINK_VERIFY@),
                    0,
                )
            }
        },
    }
}

pub open spec fn open_note(open: Seq<Seq<char>>, file: Seq<char>) -> Seq<char> {
    "(D refused — the plan has open steps: "@ + joined(open, ", "@)
        + ". Finish and mark them done, or edit "@ + file
        + " to descope with status \"skip\". To narrate progress use S, not D)"@
}

/// The run once a D has met the plan: it is refused while steps are open.
#[verifier::opaque]
pub open spec fn plan_gated(r: RunV, set: Setup, news: PlanNewsV) -> (RunV, ActionV) {
    let (r1, view, open) = planned(r, set, news);
    if open.len() > 0 {
        onward(run_noted(r1, open_note(open, set.cfg.plan.file@)), 0)
    } else {
        gate_claims(r1, set)
    }
}

/// Whether the claim check let the report pass.
pub open spec fn passes(verdict: Seq<char>) -> bool {
    verdict.len() == 0 || begins(lowered(verdict), "ok"@)
}

/// The run once the claim check has answered, or failed to.
#[verifier::opaque]
pub open spec fn claims_checked(r: RunV, set: Setup, news: Option<(Seq<char>, StatsV)>) -> (
    RunV,
    ActionV,
) {
    match news {
        None => gate_subs(r),
        Some((text, s)) => {
            let r1 = RunV {
                rep: ReportV {
                    tok_in: held_sum(
                        r.rep.tok_in as int,
                        s.prompt_tokens as int,
                        u64::MAX as int,
                    ) as u64,
                    tok_out: held_sum(
                        r.rep.tok_out as int,
                        s.completion_tokens as int,
                        u64::MAX as int,
                    ) as u64,
                    model_ms: held_sum(
                        r.rep.model_ms as int,
                        s.total_ms as int,
                        u128::MAX as int,
                    ) as u128,
                    ..r.rep
                },
                ..r
            };
            let v = trimmed(text);
            if passes(v) {
                gate_subs(r1)
            } else {
                onward(
                    run_noted(
                        RunV {
                            n: Counts {
                                claims: held_sum(r1.n.claims as int, 1, u32::MAX as int) as u32,
                                ..r1.n
                            },
                            ..r1
                        },
                        CLAIMS_HEAD@ + clipped(v, 600) + CLAIMS_TAIL@,
                    ),
                    0,
                )
            }
        },
    }
}

/// The run once all subagents are back: their briefs have landed, and the
/// model finishes with full knowledge.
#[verifier::opaque]
pub open spec fn subs_back(r: RunV, back: Seq<Option<ReportV>>) -> (RunV, ActionV) {
    onward(run_noted(harvested(r, back, true), SUBS_BACK@), 0)
}

/// Whether the background check passed, and what the model is told of it.
pub open spec fn verify_text(cfg: Config, out: Seq<char>) -> Seq<char> {
    "(auto-verify "@ + (if begins(out, "ok"@) {
        "PASS"@
    } else {
        "FAIL"@
    }) + ": `"@ + (match cfg.verify.cmd {
        Some(c) => c@,
        None => ""@,
    }) + "`)\n"@ + pruned(cfg.verify.prune@, out)
}

/// What the output of the background check comes to.
pub fn verify_outcome(cfg: &Config, out: &str) -> (r: (bool, String))
    ensures
        r.0 == begins(out@, "ok"@),
        r.1@ == verify_text(*cfg, out@),
{
    let ok = text::starts_with(out, "ok");
    let mut t = "(auto-verify ".to_string();
    t.append(
        if ok {
            "PASS"
        } else {
            "FAIL"
        },
    );
    t.append(": `");
    match &cfg.verify.cmd {
        Some(c) => {
            t.append(c);
        },
        None => {
            t.append("");
        },
    }
    t.append("`)\n");
    let kept = crate::tools::prune(&cfg.verify.prune, out);
    t.append(&kept);
    (ok, t)
}

impl Run {
    fn answer_think(&mut self)
        requires
            old(self).wf(),
        ensures
            final(self).wf(),
            final(self).set == old(self).set,
            final(self)@ == thought(old(self)@, old(self).set),
    {
        proof {
            reveal(thought);
        }
        let mut req: Option<String> = None;
        std::mem::swap(&mut req, &mut self.desk.think_req);
        if let Some(why) = req {
            if !agent::thinks_on(&self.set.cfg, "request") {
                self.note(B_IGNORED.to_string());
            } else if self.n.think_reqs >= 2 {
                self.note(B_REFUSED.to_string());
            } else {
                self.n.think_reqs = self.n.think_reqs + 1;
                self.escalate("request");
                let mut t = "(deliberation on for the next turns — your reason: ".to_string();
                let shown = clip(&why, 200);
                t.append(&shown);
                t.append(")");
                self.note(t);
            }
        }
    }

    fn tally(&mut self, nudge: bool)
        requires
            old(self).wf(),
        ensures
            final(self).wf(),
            final(self).set == old(self).set,
            final(self)@ == tallied(old(self)@, old(self).set, nudge),
    {
        proof {
            reveal(tallied);
        }
        if nudge {
            self.note(NUDGE.to_string());
        }
        self.rep.commands = text::add_usize(self.rep.commands, self.desk.executed);
        self.rep.tool_ms = text::add_u128(self.rep.tool_ms, self.desk.tool_us / 1000);
        if self.desk.loop_warned {
            if self.escalate("loop_warn") {
                self.note(THINK_LOOP.to_string());
            }
        }
        self.answer_think();
        self.verify_wanted = self.desk.edited && self.set.cfg.verify.cmd.is_some();
    }

    fn message(&self) -> (r: String)
        ensures
            r@ == cleaned(done_msg(self@)),
    {
        match &self.desk.done {
            Some(m) => agent::clean_final(m),
            None => agent::clean_final(""),
        }
    }

    fn repeats_itself(&self) -> (b: bool)
        ensures
            b == is_echo(self@.desk.says, done_msg(self@)),
    {
        let d = text::lower_ascii(&self.message());
        if text::empty(&d) {
            return false;
        }
        let ghost says = self@.desk.says;
        let mut found = false;
        let mut i: usize = 0;
        while i < self.desk.says.len() && !found
            invariant
                i <= self.desk.says@.len(),
                says == texts(self.desk.says@),
                found ==> exists|j: int| 0 <= j < says.len() && echoes(#[trigger] says[j], d@),
                !found ==> forall|j: int| 0 <= j < i ==> !echoes(#[trigger] says[j], d@),
            decreases self.desk.says@.len() - i,
        {
            assert(says[i as int] == self.desk.says@[i as int]@);
            let s = text::lower_ascii(&text::trim(&self.desk.says[i]));
            found = text::same(&s, &d) || text::starts_with(&s, &d) || text::starts_with(&d, &s);
            i = i + 1;
        }
        found
    }

    fn finish_run(&mut self) -> (a: Action)
        requires
            old(self).wf(),
        ensures
            final(self).wf(),
            final(self).set == old(self).set,
            (final(self)@, a@) == finished(old(self)@),
    {
        let m = self.message();
        let msg = if text::empty(&m) {
            "done.".to_string()
        } else {
            m
        };
        let turn = self.desk.turn;
        self.desk.log.push(Kind::Final, turn, msg.clone(), None);
        self.end(msg);
        Action::End
    }

    fn subs_gate(&mut self) -> (a: Action)
        requires
            old(self).wf(),
        ensures
            final(self).wf(),
            final(self).set == old(self).set,
            (final(self)@, a@) == gate_subs(old(self)@),
    {
        let n = self.desk.pending.len();
        if n > 0 {
            let mut t = "(waiting on ".to_string();
            let shown = text::dec(n as u64);
            t.append(&shown);
            t.append(" subagent");
            t.append(
                if n == 1 {
                    ""
                } else {
                    "s"
                },
            );
            t.append(" before finishing…)");
            self.show(t);
            self.phase = Phase::Subs;
            Action::AwaitSubs
        } else {
            self.finish_run()
        }
    }

    fn count_errors(&self) -> (n: usize)
        requires
            self.wf(),
        ensures
            n == errors_in(self@.desk.log.entries, self@.desk.log.entries.len() as int),
    {
        let ghost es = self@.desk.log.entries;
        let mut n: usize = 0;
        let mut i: usize = 0;
        while i < self.desk.log.ledger.len()
            invariant
                n <= i <= es.len(),
                es == self.desk.log.ledger@,
                n == errors_in(es, i as int),
            decreases es.len() - i,
        {
            let e = self.desk.log.ledger.entry(i);
            if e.kind == Kind::Result && text::starts_with(&e.text, "err:") {
                n = n + 1;
            }
            i = i + 1;
        }
        n
    }

    fn evidence_text(&self) -> (r: String)
        requires
            self.wf(),
        ensures
            r@ == evidence(self@),
    {
        let mut t = "- files created or modified this run: ".to_string();
        let wrote = self.ws.written_paths();
        assert(texts(wrote@).len() == wrote@.len());
        if wrote.len() == 0 {
            t.append("NONE");
        } else {
            let list = text::join(wrote, ", ");
            t.append(&list);
        }
        t.append("\n- commands executed: ");
        let n = text::dec(self.rep.commands as u64);
        t.append(&n);
        t.append("\n- tool results that errored: ");
        let e = text::dec(self.count_errors() as u64);
        t.append(&e);
        t.append("\n");
        t
    }

    fn claims_gate(&mut self) -> (a: Action)
        requires
            old(self).wf(),
        ensures
            final(self).wf(),
            final(self).set == old(self).set,
            (final(self)@, a@) == gate_claims(old(self)@, old(self).set),
    {
        proof {
            reveal(gate_claims);
        }
        if self.set.cfg.verify.claims && self.desk.log.depth == 0 && self.n.claims < 2 {
            proof {
                lemma_rendered_sound(self@, self.set);
            }
            let facts = self.evidence_text();
            let report = self.message();
            let turn = self.desk.turn;
            let mut user = self.renderer.render(
                &self.desk.log.ledger,
                &self.set.cfg.context,
                turn,
                self.cpt_milli,
            );
            user.append(CHECK_HEAD);
            user.append(&report);
            user.append("\n---\nEvidence from the run:\n");
            user.append(&facts);
            user.append(CHECK_TAIL);
            self.phase = Phase::Claims;
            Action::CheckClaims { user }
        } else {
            self.subs_gate()
        }
    }

    fn plan_gate(&mut self) -> (a: Action)
        requires
            old(self).wf(),
        ensures
            final(self).wf(),
            final(self).set == old(self).set,
            (final(self)@, a@) == gate_plan(old(self)@, old(self).set),
    {
        if self.set.cfg.plan.enforce {
            self.phase = Phase::GatePlan;
            Action::TickPlan
        } else {
            self.claims_gate()
        }
    }

    fn go_on(&mut self) -> (a: Action)
        requires
            old(self).wf(),
        ensures
            final(self).wf(),
            final(self).set == old(self).set,
            (final(self)@, a@) == onward(old(self)@, 0),
    {
        self.phase = Phase::Top;
        Action::NextTurn { wait_ms: 0 }
    }

    fn meet_gates(&mut self, handback: bool) -> (a: Action)
        requires
            old(self).wf(),
        ensures
            final(self).wf(),
            final(self).set == old(self).set,
            (final(self)@, a@) == gates(old(self)@, handback),
    {
        proof {
            reveal(gates);
        }
        if handback {
            return self.subs_gate();
        }
        let dropped = self.lexer.dropped_count();
        if dropped >= 3 && self.n.bounces < 3 {
            self.n.bounces = self.n.bounces + 1;
            let mut t = "(D refused — ".to_string();
            let n = text::dec(dropped as u64);
            t.append(&n);
            t.append(BOUNCE);
            self.note(t);
            return self.go_on();
        }
        if self.repeats_itself() {
            self.note(ECHO.to_string());
            return self.go_on();
        }
        self.phase = Phase::Verify;
        Action::AwaitVerify
    }

    fn on_dispatched(&mut self, nudge: bool, length_capped: bool, handback: bool) -> (a: Action)
        requires
            old(self).wf(),
        ensures
            final(self).wf(),
            final(self).set == old(self).set,
            (final(self)@, a@) == turn_over(
                old(self)@,
                old(self).set,
                nudge,
                length_capped,
                handback,
            ),
    {
        proof {
            reveal(turn_over);
        }
        self.tally(nudge);
        if self.desk.refusals >= MAX_REFUSALS {
            self.end(STUCK_END.to_string());
            return Action::End;
        }
        if length_capped {
            self.note(LENGTH_NOTE.to_string());
        }
        if self.desk.done.is_none() {
            return self.go_on();
        }
        self.meet_gates(handback)
    }

    fn on_verified(&mut self, verify: Option<(bool, String)>) -> (a: Action)
        requires
            old(self).wf(),
        ensures
            final(self).wf(),
            final(self).set == old(self).set,
            (final(self)@, a@) == verify_joined(old(self)@, old(self).set, outcome(verify)),
    {
        proof {
            reveal(verify_joined);
        }
        if let Some((ok, text)) = verify {
            self.note(text);
            if !ok {
                self.note(VERIFY_REFUSED.to_string());
                self.count_failure("@verify", THINK_VERIFY.to_string());
                return self.go_on();
            }
        }
        self.plan_gate()
    }

    fn on_plan_gate(&mut self, news: PlanNews) -> (a: Action)
        requires
            old(self).wf(),
        ensures
            final(self).wf(),
            final(self).set == old(self).set,
            (final(self)@, a@) == plan_gated(old(self)@, old(self).set, news@),
    {
        proof {
            reveal(plan_gated);
        }
        let (_view, open) = self.take_plan(news);
        assert(texts(open@).len() == open@.len());
        if open.len() > 0 {
            let mut t = "(D refused — the plan has open steps: ".to_string();
            let list = text::join(&open, ", ");
            t.append(&list);
            t.append(". Finish and mark them done, or edit ");
            t.append(&self.set.cfg.plan.file);
            t.append(" to descope with status \"skip\". To narrate progress use S, not D)");
            self.note(t);
            return self.go_on();
        }
        self.claims_gate()
    }

    fn on_checked(&mut self, news: Option<(String, StreamStats)>) -> (a: Action)
        requires
            old(self).wf(),
        ensures
            final(self).wf(),
            final(self).set == old(self).set,
            (final(self)@, a@) == claims_checked(old(self)@, old(self).set, reply(news)),
    {
        proof {
            reveal(claims_checked);
        }
        if let Some((text, s)) = news {
            self.rep.tok_in = text::add_u64(self.rep.tok_in, s.prompt_tokens);
            self.rep.tok_out = text::add_u64(self.rep.tok_out, s.completion_tokens);
            self.rep.model_ms = text::add_u128(self.rep.model_ms, s.total_ms);
            let v = text::trim(&text);
            let ok = text::empty(&v) || text::starts_with(&text::lower_ascii(&v), "ok");
            if !ok {
                self.n.claims = text::add_u32(self.n.claims, 1);
                let mut t = CLAIMS_HEAD.to_string();
                let shown = clip(&v, 600);
                t.append(&shown);
                t.append(CLAIMS_TAIL);
                self.note(t);
                return self.go_on();
            }
        }
        self.subs_gate()
    }

    fn on_subs(&mut self, back: Vec<Option<Report>>) -> (a: Action)
        requires
            old(self).wf(),
        ensures
            final(self).wf(),
            final(self).set == old(self).set,
            (final(self)@, a@) == subs_back(old(self)@, reports(back@)),
    {
        proof {
            reveal(subs_back);
        }
        self.harvest_all(&back, true);
        self.note(SUBS_BACK.to_string());
        self.go_on()
    }
}

// ---------------------------------------------------------------------------
// Steps
// ---------------------------------------------------------------------------

/// What happened outside.
pub enum Event {
    /// A turn may start: whether the user wants to stop, the messages that
    /// came in, the subagents that are back, and a background verify that is.
    Turn {
        stopped: bool,
        inbox: Vec<String>,
        back: Vec<Option<Report>>,
        verify: Option<(bool, String)>,
    },
    Plan { news: PlanNews },
    Summary { reply: Option<(String, StreamStats)> },
    Streamed { render_us: u128, result: Result<StreamStats, String> },
    Dispatched,
    Verified { verify: Option<(bool, String)> },
    Checked { reply: Option<(String, StreamStats)> },
    SubsBack { back: Vec<Option<Report>> },
}

pub enum EventV {
    Turn {
        stopped: bool,
        inbox: Seq<Seq<char>>,
        back: Seq<Option<ReportV>>,
        verify: Option<(bool, Seq<char>)>,
    },
    Plan { news: PlanNewsV },
    Summary { reply: Option<(Seq<char>, StatsV)> },
    Streamed { render_us: u128, result: Result<StatsV, Seq<char>> },
    Dispatched,
    Verified { verify: Option<(bool, Seq<char>)> },
    Checked { reply: Option<(Seq<char>, StatsV)> },
    SubsBack { back: Seq<Option<ReportV>> },
}

impl View for Event {
    type V = EventV;

    open spec fn view(&self) -> EventV {
        match *self {
            Event::Turn { stopped, inbox, back, verify } => EventV::Turn {
                stopped,
                inbox: texts(inbox@),
                back: reports(back@),
                verify: outcome(verify),
            },
            Event::Plan { news } => EventV::Plan { news: news@ },
            Event::Summary { reply: r } => EventV::Summary { reply: reply(r) },
            Event::Streamed { render_us, result } => EventV::Streamed {
                render_us,
                result: stream_result(result),
            },
            Event::Dispatched => EventV::Dispatched,
            Event::Verified { verify } => EventV::Verified { verify: outcome(verify) },
            Event::Checked { reply: r } => EventV::Checked { reply: reply(r) },
            Event::SubsBack { back } => EventV::SubsBack { back: reports(back@) },
        }
    }
}

/// One step of a run. An event that the run did not ask for changes nothing.
pub open spec fn stepped(r: RunV, set: Setup, ev: EventV) -> (RunV, ActionV) {
    match (r.phase, ev) {
        (Phase::Top, EventV::Turn { stopped, inbox, back, verify }) => topped(
            r,
            set,
            stopped,
            inbox,
            back,
            verify,
        ),
        (Phase::Plan, EventV::Plan { news }) => plan_looked(r, set, news),
        (Phase::Seal, EventV::Summary { reply }) => asked(summarized(r, set, reply), set),
        (Phase::Stream, EventV::Streamed { render_us, result }) => streamed(
            r,
            set,
            render_us,
            result,
        ),
        (Phase::Tail { nudge, length_capped, handback }, EventV::Dispatched) => turn_over(
            r,
            set,
            nudge,
            length_capped,
            handback,
        ),
        (Phase::Verify, EventV::Verified { verify }) => verify_joined(r, set, verify),
        (Phase::GatePlan, EventV::Plan { news }) => plan_gated(r, set, news),
        (Phase::Claims, EventV::Checked { reply }) => claims_checked(r, set, reply),
        (Phase::Subs, EventV::SubsBack { back }) => subs_back(r, back),
        _ => (r, ActionV::Nothing),
    }
}

impl Run {
    /// One step: takes in what happened, and says what has to happen next.
    pub fn step(&mut self, ev: Event) -> (a: Action)
        requires
            old(self).wf(),
        ensures
            final(self).wf(),
            final(self).set == old(self).set,
            (final(self)@, a@) == stepped(old(self)@, old(self).set, ev@),
    {
        match (self.phase, ev) {
            (Phase::Top, Event::Turn { stopped, inbox, back, verify }) => self.on_turn(
                stopped,
                inbox,
                back,
                verify,
            ),
            (Phase::Plan, Event::Plan { news }) => self.on_plan(news),
            (Phase::Seal, Event::Summary { reply: r }) => self.on_summary(r),
            (Phase::Stream, Event::Streamed { render_us, result }) => self.on_streamed(
                render_us,
                result,
            ),
            (Phase::Tail { nudge, length_capped, handback }, Event::Dispatched) => {
                self.on_dispatched(nudge, length_capped, handback)
            },
            (Phase::Verify, Event::Verified { verify }) => self.on_verified(verify),
            (Phase::GatePlan, Event::Plan { news }) => self.on_plan_gate(news),
            (Phase::Claims, Event::Checked { reply: r }) => self.on_checked(r),
            (Phase::Subs, Event::SubsBack { back }) => self.on_subs(back),
            _ => Action::Nothing,
        }
    }

    /// Dispatches one command.
    pub fn dispatch(&mut self, cmd: Cmd) -> (r: Todo)
        requires
            old(self).wf(),
        ensures
            final(self).wf(),
            final(self).set == old(self).set,
            final(self)@ == (RunV {
                desk: dispatched(old(self)@.desk, old(self).set.cfg, cmd@).0,
                ..old(self)@
            }),
            r@ == dispatched(old(self)@.desk, old(self).set.cfg, cmd@).1,
    {
        self.desk.dispatch(&self.set.cfg, cmd)
    }

    /// Lands the result of a tool.
    pub fn land(
        &mut self,
        cmd: &Cmd,
        mode: Mode,
        result: String,
        elapsed_us: u128,
    )
        requires
            old(self).wf(),
        ensures
            final(self).wf(),
            final(self).set == old(self).set,
            final(self)@ == (RunV {
                desk: landed_desk(
                    old(self)@.desk,
                    old(self).set.cfg.context,
                    cmd@,
                    mode,
                    result@,
                    elapsed_us,
                ),
                ..old(self)@
            }),
    {
        self.desk.landed(&self.set.cfg.context, cmd, mode, result, elapsed_us)
    }

    /// Lands an image, or why there is none.
    pub fn land_image(&mut self, image: Result<Image, String>)
        requires
            old(self).wf(),
        ensures
            final(self).wf(),
            final(self).set == old(self).set,
            final(self)@ == (RunV {
                desk: viewed_desk(
                    old(self)@.desk,
                    match image {
                        Ok(i) => Ok(i@),
                        Err(e) => Err(e@),
                    },
                ),
                ..old(self)@
            }),
    {
        self.desk.viewed(image)
    }

    /// Shows that a D waits for a background verify that is still running.
    pub fn wait_for_verify(&mut self)
        requires
            old(self).wf(),
        ensures
            final(self).wf(),
            final(self).set == old(self).set,
            final(self)@ == run_shown(old(self)@, VERIFY_WAIT@),
    {
        self.show(VERIFY_WAIT.to_string());
    }

    /// Takes the events that have not been sent yet.
    pub fn take_events(&mut self) -> (events: Vec<Ev>)
        requires
            old(self).wf(),
        ensures
            final(self).wf(),
            final(self).set == old(self).set,
            agent::evs(events@) == old(self)@.desk.log.events,
            final(self)@ == (RunV {
                desk: DeskV {
                    log: LogV { events: Seq::empty(), ..old(self)@.desk.log },
                    ..old(self)@.desk
                },
                ..old(self)@
            }),
    {
        let mut events: Vec<Ev> = Vec::new();
        std::mem::swap(&mut events, &mut self.desk.log.events);
        assert(agent::evs(self.desk.log.events@) =~= Seq::<EvV>::empty());
        events
    }
}

// ---------------------------------------------------------------------------
// The start and the end of a run
// ---------------------------------------------------------------------------

/// The limits, the system prompt, and the verbs of a run.
pub open spec fn setup_of(cfg: Config, profile: Option<ProfileCfg>, base: u32, system: String) -> Setup {
    match profile {
        Some(p) => Setup {
            cfg: Config {
                context: CtxCfg { budget_tokens: p.budget_tokens, ..cfg.context },
                ..cfg
            },
            max_turns: p.max_turns,
            system,
            base,
        },
        None => Setup { cfg, max_turns: cfg.context.max_turns, system, base },
    }
}

/// The profile of that name.
pub open spec fn profile_named(cfg: Config, name: Option<Seq<char>>) -> Option<ProfileCfg> {
    match name {
        Some(n) => lookup(cfg.profile@, n),
        None => None,
    }
}

/// What a profile says of the system prompt and of the verbs.
pub open spec fn profile_system(p: Option<ProfileCfg>) -> Option<Seq<char>> {
    match p {
        Some(p) => Some(p.system@),
        None => None,
    }
}

pub open spec fn profile_tools(p: Option<ProfileCfg>) -> Option<Seq<char>> {
    match p {
        Some(p) => Some(p.tools@),
        None => None,
    }
}

/// The counters of a run that has not started.
pub open spec fn no_counts() -> Counts {
    Counts {
        turn: 0,
        empty: 0,
        degens: 0,
        talk: 0,
        last_talk: 0,
        bounces: 0,
        claims: 0,
        errs: 0,
        last_prompt: 0,
        legend_base: 0,
        legend_next: 0,
        think_left: 0,
        think_reqs: 0,
        sent_bytes: 0,
        had_images: false,
    }
}

/// A run that has not started: all that happened is that the task was
/// recorded.
pub open spec fn started(
    ledger: Seq<EntryV>,
    ws: WorkV,
    rend: RenderV,
    base: u32,
    task: Seq<char>,
    allowed: Option<Seq<char>>,
    tag: Option<Seq<char>>,
    depth: u8,
    cpt: usize,
) -> RunV {
    RunV {
        desk: DeskV {
            log: recorded(
                LogV { entries: ledger, events: Seq::empty(), tag, depth },
                Kind::Task,
                base,
                task,
                None,
            ),
            turn: base,
            allowed,
            pending: Seq::empty(),
            images: Seq::empty(),
            repeats: Map::empty(),
            refusals: 0,
            loop_warned: false,
            think_req: None,
            done: None,
            edited: false,
            executed: 0,
            tool_us: 0,
            says: Seq::empty(),
        },
        ws,
        rend,
        rep: blank_report(),
        lex: fresh(false),
        tail: Seq::empty(),
        seen: Seq::empty(),
        vfails: Seq::empty(),
        n: no_counts(),
        cpt,
        phase: Phase::Top,
        plan_view: ""@,
        verify_wanted: false,
    }
}

/// A number of tokens, in thousands from ten thousand on. `thousands` is the
/// number in thousands with one digit after the point.
pub open spec fn fmt_k_of(n: u64, thousands: Seq<char>) -> Seq<char> {
    if n >= 10_000 {
        thousands + "k"@
    } else {
        decimal(n as nat) + "t"@
    }
}

pub fn fmt_k(n: u64, thousands: &str) -> (r: String)
    ensures
        r@ == fmt_k_of(n, thousands@),
{
    if n >= 10_000 {
        let mut t = thousands.to_owned();
        t.append("k");
        t
    } else {
        let mut t = text::dec(n);
        t.append("t");
        t
    }
}

/// What a run cost.
pub open spec fn cost_text(rep: ReportV, k_in: Seq<char>, k_out: Seq<char>) -> Seq<char> {
    if rep.tok_in > 0 && rep.tok_cached > 0 {
        "in "@ + fmt_k_of(rep.tok_in, k_in) + " ("@ + decimal(
            (rep.tok_cached as nat * 100) / rep.tok_in as nat,
        ) + "% cached) · out "@ + fmt_k_of(rep.tok_out, k_out)
    } else if rep.tok_in > 0 {
        "in "@ + fmt_k_of(rep.tok_in, k_in) + " · out "@ + fmt_k_of(rep.tok_out, k_out)
    } else {
        "~"@ + decimal(rep.sent_tokens as nat) + "t sent"@
    }
}

/// A number of things.
pub open spec fn counted_text(n: nat, one: Seq<char>) -> Seq<char> {
    decimal(n) + one + (if n == 1 {
        ""@
    } else {
        "s"@
    })
}

/// The line at the end of a run. `seconds` is how long it took, with one digit
/// after the point.
pub open spec fn report_text(
    rep: ReportV,
    seconds: Seq<char>,
    k_in: Seq<char>,
    k_out: Seq<char>,
) -> Seq<char> {
    counted_text(rep.turns as nat, " turn"@) + " · "@ + counted_text(
        rep.commands as nat,
        " cmd"@,
    ) + " · "@ + seconds + "s · "@ + cost_text(rep, k_in, k_out) + (if rep.seals > 0 {
        " · "@ + counted_text(rep.seals as nat, " seal"@)
    } else {
        ""@
    })
}

fn count_text(n: u64, one: &str) -> (r: String)
    ensures
        r@ == counted_text(n as nat, one@),
{
    let mut t = text::dec(n);
    t.append(one);
    t.append(
        if n == 1 {
            ""
        } else {
            "s"
        },
    );
    t
}

/// The line at the end of a run.
pub fn report_line(rep: &Report, seconds: &str, k_in: &str, k_out: &str) -> (r: String)
    ensures
        r@ == report_text(rep@, seconds@, k_in@, k_out@),
{
    let mut t = count_text(rep.turns as u64, " turn");
    t.append(" · ");
    let c = count_text(rep.commands as u64, " cmd");
    t.append(&c);
    t.append(" · ");
    t.append(seconds);
    t.append("s · ");
    let cost = if rep.tok_in > 0 && rep.tok_cached > 0 {
        let mut s = "in ".to_string();
        let a = fmt_k(rep.tok_in, k_in);
        s.append(&a);
        s.append(" (");
        let share: u128 = rep.tok_cached as u128 * 100 / rep.tok_in as u128;
        let b = text::dec_u128(share);
        s.append(&b);
        s.append("% cached) · out ");
        let d = fmt_k(rep.tok_out, k_out);
        s.append(&d);
        s
    } else if rep.tok_in > 0 {
        let mut s = "in ".to_string();
        let a = fmt_k(rep.tok_in, k_in);
        s.append(&a);
        s.append(" · out ");
        let d = fmt_k(rep.tok_out, k_out);
        s.append(&d);
        s
    } else {
        let mut s = "~".to_string();
        let a = text::dec(rep.sent_tokens as u64);
        s.append(&a);
        s.append("t sent");
        s
    };
    t.append(&cost);
    let mut seals = "".to_string();
    if rep.seals > 0 {
        seals = " · ".to_string();
        let n = count_text(rep.seals as u64, " seal");
        seals.append(&n);
    }
    t.append(&seals);
    t
}

/// The run once it is closed: leftover subagents have landed, and a run
/// without a message reached its turn limit.
pub open spec fn closed_run(
    r: RunV,
    set: Setup,
    back: Seq<Option<ReportV>>,
    wall_ms: u128,
    seconds: Seq<char>,
    k_in: Seq<char>,
    k_out: Seq<char>,
) -> RunV {
    let turn = held_sum(set.base as int, r.rep.turns as int, u32::MAX as int) as u32;
    let r1 = harvested(RunV { desk: DeskV { turn, ..r.desk }, ..r }, back, true);
    let msg = if r1.rep.final_msg.len() == 0 {
        "(max turns reached)"@
    } else {
        r1.rep.final_msg
    };
    let rep = ReportV { final_msg: msg, wall_ms, ..r1.rep };
    let d = if r1.desk.log.depth == 0 {
        desk_emitted(
            desk_emitted(r1.desk, EvV::Report(report_text(rep, seconds, k_in, k_out))),
            EvV::Done(msg),
        )
    } else {
        r1.desk
    };
    RunV { desk: d, rep, phase: Phase::Over, ..r1 }
}

impl Run {
    /// A run of a task in a session. A profile brings its own limits, verbs
    /// and system prompt.
    pub fn start(
        cfg: Config,
        session: Session,
        task: String,
        profile: Option<String>,
        depth: u8,
        ctl: Ctl,
        cpt_milli: usize,
    ) -> (r: Run)
        requires
            session.wf(),
            sane_ratio(cpt_milli as int),
        ensures
            r.wf(),
            r.set == setup_of(
                cfg,
                profile_named(cfg, opt_text(profile)),
                session.turn_base,
                r.set.system,
            ),
            r.set.system@ == system_text(
                r.set.cfg,
                profile_system(profile_named(cfg, opt_text(profile))),
                profile_tools(profile_named(cfg, opt_text(profile))),
            ),
            r@ == started(
                session.ledger@,
                session.ws@,
                session.renderer@,
                session.turn_base,
                task@,
                profile_tools(profile_named(cfg, opt_text(profile))),
                opt_text(ctl.tag),
                depth,
                cpt_milli,
            ),
    {
        let mut cfg = cfg;
        let mut max_turns: u32 = cfg.context.max_turns;
        let mut budget: usize = cfg.context.budget_tokens;
        let mut prof_system: Option<String> = None;
        let mut allowed: Option<String> = None;
        if let Some(name) = &profile {
            if let Some(p) = cfg.profile.get(name) {
                max_turns = p.max_turns;
                budget = p.budget_tokens;
                prof_system = Some(p.system.clone());
                allowed = Some(p.tools.clone());
            }
        }
        cfg.context.budget_tokens = budget;
        let system = agent::build_system(&cfg, &prof_system, &allowed);
        let base = session.turn_base;
        let mut log = Log { ledger: session.ledger, events: Vec::new(), ctl, depth };
        assert(agent::evs(log.events@) =~= Seq::<EvV>::empty());
        log.push(Kind::Task, base, task, None);
        let repeats: HashMap<u64, (u32, u64)> = HashMap::new();
        let desk = Desk {
            log,
            turn: base,
            allowed,
            pending: Vec::new(),
            images: Vec::new(),
            repeats,
            refusals: 0,
            loop_warned: false,
            think_req: None,
            done: None,
            edited: false,
            executed: 0,
            tool_us: 0,
            says: Vec::new(),
        };
        assert(pairs(desk.pending@) =~= Seq::<(Seq<char>, Seq<char>)>::empty());
        assert(texts(desk.says@) =~= Seq::<Seq<char>>::empty());
        let r = Run {
            desk,
            ws: session.ws,
            renderer: session.renderer,
            rep: Report::default(),
            lexer: Lexer::new(),
            tail: Vec::new(),
            seen: Table::new(),
            vfails: Table::new(),
            n: Counts {
                turn: 0,
                empty: 0,
                degens: 0,
                talk: 0,
                last_talk: 0,
                bounces: 0,
                claims: 0,
                errs: 0,
                last_prompt: 0,
                legend_base: 0,
                legend_next: 0,
                think_left: 0,
                think_reqs: 0,
                sent_bytes: 0,
                had_images: false,
            },
            cpt_milli,
            phase: Phase::Top,
            plan_view: "".to_string(),
            verify_wanted: false,
            set: Setup { cfg, max_turns, system, base },
        };
        assert(cmds(r.tail@) =~= Seq::<CmdV>::empty());
        r
    }

    /// Closes a run: subagents that are still out are landed, so that their
    /// work is in the ledger.
    pub fn close(
        &mut self,
        back: Vec<Option<Report>>,
        wall_ms: u128,
        seconds: &str,
        k_in: &str,
        k_out: &str,
    )
        requires
            old(self).wf(),
        ensures
            final(self).wf(),
            final(self).set == old(self).set,
            final(self)@ == closed_run(
                old(self)@,
                old(self).set,
                reports(back@),
                wall_ms,
                seconds@,
                k_in@,
                k_out@,
            ),
    {
        self.desk.turn = text::add_u32(self.set.base, self.rep.turns);
        self.harvest_all(&back, true);
        if text::empty(&self.rep.final_msg) {
            self.rep.final_msg = "(max turns reached)".to_string();
        }
        self.rep.wall_ms = wall_ms;
        if self.desk.log.depth == 0 {
            let line = report_line(&self.rep, seconds, k_in, k_out);
            self.desk.log.emit(Ev::Report(line));
            let msg = self.rep.final_msg.clone();
            self.desk.log.emit(Ev::Done(msg));
        }
        self.phase = Phase::Over;
    }

    /// The session to continue with, and what the run came to.
    pub fn into_parts(self) -> (r: (Session, Report))
        requires
            self.wf(),
        ensures
            r.0.wf(),
            r.0.ledger@ == self@.desk.log.entries,
            r.0.ws@ == self@.ws,
            r.0.renderer@ == self@.rend,
            r.0.turn_base == held_sum(
                self.set.base as int,
                self@.rep.turns as int,
                u32::MAX as int,
            ),
            r.1@ == self@.rep,
    {
        let turn_base = text::add_u32(self.set.base, self.rep.turns);
        (
            Session {
                ledger: self.desk.log.ledger,
                ws: self.ws,
                renderer: self.renderer,
                turn_base,
            },
            self.rep,
        )
    }
}

// ---------------------------------------------------------------------------
// Laws of a run
// ---------------------------------------------------------------------------

/// Whether the step from `a` to `b` recorded a final message.
pub open spec fn records_final(a: RunV, b: RunV) -> bool {
    let es = b.desk.log.entries;
    es.len() > a.desk.log.entries.len() && es.last().kind == Kind::Final
}

proof fn lemma_top_not_final(
    r: RunV,
    set: Setup,
    stopped: bool,
    inbox: Seq<Seq<char>>,
    back: Seq<Option<ReportV>>,
    verify: Option<(bool, Seq<char>)>,
)
    ensures
        topped(r, set, stopped, inbox, back, verify).1 == ActionV::End ==> topped(
            r,
            set,
            stopped,
            inbox,
            back,
            verify,
        ).0.desk.log.entries == r.desk.log.entries,
{
    let i = held_sum(r.n.turn as int, 1, u32::MAX as int) as u32;
    let r1 = RunV { n: Counts { turn: i, ..r.n }, ..r };
    lemma_after_plan_log(turned(r1, set, i, inbox, back, verify), set, ""@, false);
    reveal(topped);
}

proof fn lemma_settled_not_over(r: RunV, length_capped: bool, rescued_prose: bool)
    ensures
        settled(r, length_capped, rescued_prose).1 != ActionV::End,
{
    reveal(settled);
}

proof fn lemma_prosed_not_final(r: RunV, length_capped: bool)
    ensures
        prosed(r, length_capped).1 == ActionV::End ==> prosed(r, length_capped).0.desk.log.entries
            == r.desk.log.entries,
{
    let prose = trimmed(r.lex.dropped_text);
    let full = Counts { empty: 0, ..r.n };
    lemma_settled_not_over(
        run_noted(
            RunV { tail: r.tail.push(CmdV::Say { text: prose }), n: full, ..r },
            PROSE_RESCUED@,
        ),
        length_capped,
        true,
    );
    reveal(prosed);
    lemma_settled_not_over(RunV { n: Counts { empty: 0, ..r.n }, ..r }, length_capped, false);
}

proof fn lemma_replied_not_final(r: RunV, set: Setup, s: StatsV)
    ensures
        replied(r, set, s).1 == ActionV::End ==> !records_final(r, replied(r, set, s).0),
{
    reveal(billed);
    reveal(closed_stream);
    reveal(collapsed);
    reveal(replied);
    let r1 = closed_stream(billed(r, set, s), set);
    let length_capped = s.finish_reason == Some("length"@);
    assert(r1.desk.log.entries == r.desk.log.entries);
    if s.finish_reason == Some("degenerate"@) {
        let r2 = collapsed(r1, set);
        assert(r2.desk.log.entries.last().kind == Kind::Result);
        lemma_prosed_not_final(r2, length_capped);
    } else {
        lemma_prosed_not_final(RunV { n: Counts { degens: 0, ..r1.n }, ..r1 }, length_capped);
    }
}

proof fn lemma_streamed_not_final(
    r: RunV,
    set: Setup,
    render_us: u128,
    result: Result<StatsV, Seq<char>>,
)
    ensures
        streamed(r, set, render_us, result).1 == ActionV::End ==> !records_final(
            r,
            streamed(r, set, render_us, result).0,
        ),
{
    reveal(stream_failed);
    reveal(streamed);
    let r1 = RunV {
        rep: ReportV {
            render_us: held_sum(r.rep.render_us as int, render_us as int, u128::MAX as int) as u128,
            ..r.rep
        },
        ..r
    };
    match result {
        Ok(s) => {
            lemma_replied_not_final(r1, set, s);
        },
        Err(e) => {},
    }
}

proof fn lemma_turn_over_final(
    r: RunV,
    set: Setup,
    nudge: bool,
    length_capped: bool,
    handback: bool,
)
    ensures
        turn_over(r, set, nudge, length_capped, handback).1 == ActionV::End && records_final(
            r,
            turn_over(r, set, nudge, length_capped, handback).0,
        ) ==> handback && r.desk.pending.len() == 0,
{
    reveal(gates);
    reveal(turn_over);
    lemma_tallied_keeps(r, set, nudge);
}

proof fn lemma_tallied_keeps(r: RunV, set: Setup, nudge: bool)
    ensures
        ({
            let t = tallied(r, set, nudge);
            &&& t.desk.pending == r.desk.pending
            &&& t.desk.done == r.desk.done
            &&& t.desk.refusals == r.desk.refusals
            &&& t.desk.log.entries.len() > r.desk.log.entries.len()
                ==> t.desk.log.entries.last().kind == Kind::Result
            &&& extends(r.desk.log, t.desk.log)
        }),
{
    reveal(thought);
    reveal(tallied);
    let t = tallied(r, set, nudge);
    assert(t.desk.log.entries.take(r.desk.log.entries.len() as int) =~= r.desk.log.entries);
}

proof fn lemma_gate_claims_final(r: RunV, set: Setup)
    ensures
        gate_claims(r, set).1 == ActionV::End ==> r.desk.pending.len() == 0 && !(
        set.cfg.verify.claims && r.desk.log.depth == 0 && r.n.claims < 2),
{
    reveal(gate_claims);
}

proof fn lemma_harvested_briefs(r: RunV, back: Seq<Option<ReportV>>, all: bool, n: int)
    requires
        0 <= n,
    ensures
        harvested_upto(r, back, all, n).0.desk.log.entries.len() + harvested_upto(
            r,
            back,
            all,
            n,
        ).1.len() == r.desk.log.entries.len() + n,
    decreases n,
{
    if n > 0 {
        lemma_harvested_briefs(r, back, all, n - 1);
    }
}

/// Of a subagent that comes back one entry enters the ledger, its brief, and
/// one that is still out leaves nothing.
pub proof fn each_subagent_leaves_one_brief(r: RunV, back: Seq<Option<ReportV>>, all: bool)
    ensures
        harvested(r, back, all).desk.log.entries.len() + harvested(r, back, all).desk.pending.len()
            == r.desk.log.entries.len() + r.desk.pending.len(),
        all ==> harvested(r, back, all).desk.pending.len() == 0,
{
    reveal(harvested);
    lemma_harvested_briefs(r, back, all, r.desk.pending.len() as int);
    if all {
        lemma_nobody_stays_out(r, back, r.desk.pending.len() as int);
    }
}

proof fn lemma_nobody_stays_out(r: RunV, back: Seq<Option<ReportV>>, n: int)
    ensures
        harvested_upto(r, back, true, n).1.len() == 0,
    decreases n,
{
    if n > 0 {
        lemma_nobody_stays_out(r, back, n - 1);
    }
}

/// A run finishes with a final message only where every gate let it pass: no
/// subagent is out, and it was handed back, or no check failed, no plan step
/// is open, and the claim check, where there is one, found nothing.
pub proof fn finishing_passed_the_gates(r: RunV, set: Setup, ev: EventV)
    requires
        records_final(r, stepped(r, set, ev).0),
        stepped(r, set, ev).1 == ActionV::End,
    ensures
        r.desk.pending.len() == 0,
        match r.phase {
            Phase::Tail { nudge, length_capped, handback } => handback,
            Phase::Verify => ev is Verified && (ev->Verified_verify is Some ==> (
            ev->Verified_verify->0).0) && !set.cfg.plan.enforce && !(set.cfg.verify.claims
                && r.desk.log.depth == 0 && r.n.claims < 2),
            Phase::GatePlan => ev is Plan && planned(r, set, ev->news).2.len() == 0 && !(
            set.cfg.verify.claims && r.desk.log.depth == 0 && r.n.claims < 2),
            Phase::Claims => ev is Checked && (ev->Checked_reply is Some ==> passes(
                trimmed((ev->Checked_reply->0).0),
            )),
            _ => false,
        },
{
    reveal(planned);
    match (r.phase, ev) {
        (Phase::Top, EventV::Turn { stopped, inbox, back, verify }) => {
            lemma_top_not_final(r, set, stopped, inbox, back, verify);
        },
        (Phase::Plan, EventV::Plan { news }) => {
            reveal(plan_looked);
            let (r1, view, open) = planned(r, set, news);
            lemma_after_plan_log(
                r1,
                set,
                view,
                dones_in(r1.seen, r1.seen.len() as int) > dones_in(r.seen, r.seen.len() as int),
            );
        },
        (Phase::Seal, EventV::Summary { reply }) => {
            reveal(asked);
        },
        (Phase::Claims, EventV::Checked { reply }) => {
            reveal(claims_checked);
        },
        (Phase::Subs, EventV::SubsBack { back }) => {
            reveal(subs_back);
        },
        (Phase::Stream, EventV::Streamed { render_us, result }) => {
            lemma_streamed_not_final(r, set, render_us, result);
        },
        (Phase::Tail { nudge, length_capped, handback }, EventV::Dispatched) => {
            lemma_turn_over_final(r, set, nudge, length_capped, handback);
        },
        (Phase::Verify, EventV::Verified { verify }) => {
            reveal(verify_joined);
            match verify {
                None => {
                    lemma_gate_claims_final(r, set);
                },
                Some((ok, text)) => {
                    lemma_gate_claims_final(run_noted(r, text), set);
                },
            }
        },
        (Phase::GatePlan, EventV::Plan { news }) => {
            reveal(plan_gated);
            lemma_planned_keeps(r, set, news);
            lemma_gate_claims_final(planned(r, set, news).0, set);
        },
        _ => {},
    }
}

proof fn lemma_failed_keeps(r: RunV, set: Setup, key: Seq<char>, note: Seq<char>)
    ensures
        failed(r, set, key, note).desk.pending == r.desk.pending,
        failed(r, set, key, note).desk.log.depth == r.desk.log.depth,
        failed(r, set, key, note).n.claims == r.n.claims,
        failed(r, set, key, note).n.turn == r.n.turn,
        extends(r.desk.log, failed(r, set, key, note).desk.log),
{
    assert(failed(r, set, key, note).desk.log.entries.take(r.desk.log.entries.len() as int)
        =~= r.desk.log.entries);
}

proof fn lemma_extends(a: LogV, b: LogV, c: LogV)
    requires
        extends(a, b),
        extends(b, c),
    ensures
        extends(a, c),
{
    let n = a.entries.len() as int;
    assert(c.entries.take(n) =~= c.entries.take(b.entries.len() as int).take(n));
}

proof fn lemma_steps_failed_keeps(r: RunV, set: Setup, ids: Seq<Seq<char>>, n: int)
    ensures
        steps_failed(r, set, ids, n).desk.pending == r.desk.pending,
        steps_failed(r, set, ids, n).desk.log.depth == r.desk.log.depth,
        steps_failed(r, set, ids, n).n.claims == r.n.claims,
        steps_failed(r, set, ids, n).n.turn == r.n.turn,
        extends(r.desk.log, steps_failed(r, set, ids, n).desk.log),
    decreases n,
{
    if n > 0 {
        lemma_steps_failed_keeps(r, set, ids, n - 1);
        let before = steps_failed(r, set, ids, n - 1);
        lemma_failed_keeps(before, set, ids[n - 1], step_failed_note(ids[n - 1]));
        lemma_extends(r.desk.log, before.desk.log, steps_failed(r, set, ids, n).desk.log);
    } else {
        assert(r.desk.log.entries.take(r.desk.log.entries.len() as int) =~= r.desk.log.entries);
    }
}

proof fn lemma_noted_all_extends(log: LogV, turn: u32, notes: Seq<Seq<char>>)
    ensures
        extends(log, noted_all(log, turn, notes)),
        noted_all(log, turn, notes).depth == log.depth,
    decreases notes.len(),
{
    if notes.len() > 0 {
        lemma_noted_all_extends(log, turn, notes.drop_last());
        let before = noted_all(log, turn, notes.drop_last());
        let after = noted_all(log, turn, notes);
        assert(after.entries.take(before.entries.len() as int) =~= before.entries);
        lemma_extends(log, before, after);
    } else {
        assert(log.entries.take(log.entries.len() as int) =~= log.entries);
    }
}

proof fn lemma_planned_keeps(r: RunV, set: Setup, news: PlanNewsV)
    ensures
        planned(r, set, news).0.desk.pending == r.desk.pending,
        planned(r, set, news).0.desk.log.depth == r.desk.log.depth,
        planned(r, set, news).0.n.claims == r.n.claims,
        planned(r, set, news).0.n.turn == r.n.turn,
        extends(r.desk.log, planned(r, set, news).0.desk.log),
{
    reveal(planned);
    match news {
        PlanNewsV::Ticked(t, steps) => {
            let r1 = RunV {
                desk: DeskV { log: noted_all(r.desk.log, r.desk.turn, t.notes), ..r.desk },
                seen: seen_after(steps, steps.len() as int),
                ..r
            };
            lemma_noted_all_extends(r.desk.log, r.desk.turn, t.notes);
            lemma_steps_failed_keeps(r1, set, t.fails, t.fails.len() as int);
            lemma_extends(r.desk.log, r1.desk.log, planned(r, set, news).0.desk.log);
        },
        _ => {
            assert(r.desk.log.entries.take(r.desk.log.entries.len() as int) =~= r.desk.log.entries);
        },
    }
}

proof fn lemma_self_extends(log: LogV)
    ensures
        extends(log, log),
{
    assert(log.entries.take(log.entries.len() as int) =~= log.entries);
}

proof fn lemma_steered_extends(log: LogV, turn: u32, msgs: Seq<Seq<char>>)
    ensures
        extends(log, steered(log, turn, msgs)),
    decreases msgs.len(),
{
    if msgs.len() > 0 {
        lemma_steered_extends(log, turn, msgs.drop_last());
        let before = steered(log, turn, msgs.drop_last());
        let after = steered(log, turn, msgs);
        assert(after.entries.take(before.entries.len() as int) =~= before.entries);
        lemma_extends(log, before, after);
    } else {
        lemma_self_extends(log);
    }
}

proof fn lemma_harvested_extends(r: RunV, back: Seq<Option<ReportV>>, all: bool, n: int)
    ensures
        extends(r.desk.log, harvested_upto(r, back, all, n).0.desk.log),
    decreases n,
{
    if n > 0 {
        lemma_harvested_extends(r, back, all, n - 1);
        let before = harvested_upto(r, back, all, n - 1).0;
        let after = harvested_upto(r, back, all, n).0;
        assert(after.desk.log.entries.take(before.desk.log.entries.len() as int)
            =~= before.desk.log.entries);
        lemma_extends(r.desk.log, before.desk.log, after.desk.log);
    } else {
        lemma_self_extends(r.desk.log);
    }
}

proof fn lemma_noted_extends(r: RunV, text: Seq<char>)
    ensures
        extends(r.desk.log, run_noted(r, text).desk.log),
{
    assert(run_noted(r, text).desk.log.entries.take(r.desk.log.entries.len() as int)
        =~= r.desk.log.entries);
}

proof fn lemma_after_plan_log(r: RunV, set: Setup, view: Seq<char>, phase_done: bool)
    ensures
        after_plan(r, set, view, phase_done).0.desk.log.entries == r.desk.log.entries,
        after_plan(r, set, view, phase_done).0.n.turn == r.n.turn,
        after_plan(r, set, view, phase_done).1 != ActionV::End,
{
    reveal(asked);
    reveal(after_plan);
}

proof fn lemma_turned_extends(
    r: RunV,
    set: Setup,
    i: u32,
    inbox: Seq<Seq<char>>,
    back: Seq<Option<ReportV>>,
    verify: Option<(bool, Seq<char>)>,
)
    ensures
        extends(r.desk.log, turned(r, set, i, inbox, back, verify).desk.log),
        turned(r, set, i, inbox, back, verify).n.turn == r.n.turn,
{
    reveal(harvested);
    reveal(verify_back);
    reveal(turned);
    let turn = held_sum(set.base as int, i as int, u32::MAX as int) as u32;
    let d1 = desk_emitted(DeskV { turn, ..r.desk }, EvV::Turn(i));
    let d2 = if d1.log.depth == 0 {
        DeskV { log: steered(d1.log, turn, inbox), ..d1 }
    } else {
        d1
    };
    lemma_self_extends(r.desk.log);
    lemma_steered_extends(d1.log, turn, inbox);
    let r2 = RunV { desk: d2, rep: ReportV { turns: i, ..r.rep }, ..r };
    assert(extends(r.desk.log, r2.desk.log));
    lemma_harvested_extends(r2, back, false, r2.desk.pending.len() as int);
    lemma_harvested_counts(r2, back, false, r2.desk.pending.len() as int);
    let r3 = harvested(r2, back, false);
    lemma_extends(r.desk.log, r2.desk.log, r3.desk.log);
    match verify {
        Some((ok, text)) => {
            let r4 = run_noted(r3, text);
            lemma_noted_extends(r3, text);
            lemma_extends(r.desk.log, r3.desk.log, r4.desk.log);
            lemma_failed_keeps(r4, set, "@verify"@, THINK_VERIFY@);
            if !ok {
                lemma_extends(
                    r.desk.log,
                    r4.desk.log,
                    failed(r4, set, "@verify"@, THINK_VERIFY@).desk.log,
                );
            }
        },
        None => {},
    }
}

proof fn lemma_harvested_counts(r: RunV, back: Seq<Option<ReportV>>, all: bool, n: int)
    ensures
        harvested_upto(r, back, all, n).0.n == r.n,
    decreases n,
{
    if n > 0 {
        lemma_harvested_counts(r, back, all, n - 1);
    }
}

proof fn lemma_settled_extends(r: RunV, length_capped: bool, rescued_prose: bool)
    ensures
        extends(r.desk.log, settled(r, length_capped, rescued_prose).0.desk.log),
{
    reveal(settled);
    lemma_self_extends(r.desk.log);
    lemma_noted_extends(r, lost_note(r.lex.dropped));
}

proof fn lemma_prosed_extends(r: RunV, length_capped: bool)
    ensures
        extends(r.desk.log, prosed(r, length_capped).0.desk.log),
{
    reveal(prosed);
    let prose = trimmed(r.lex.dropped_text);
    let full = Counts { empty: 0, ..r.n };
    let r1 = RunV { tail: r.tail.push(CmdV::Say { text: prose }), n: full, ..r };
    let r2 = run_noted(r1, PROSE_RESCUED@);
    lemma_noted_extends(r1, PROSE_RESCUED@);
    lemma_settled_extends(r2, length_capped, true);
    lemma_extends(r.desk.log, r2.desk.log, settled(r2, length_capped, true).0.desk.log);
    lemma_settled_extends(RunV { n: full, ..r }, length_capped, false);
    lemma_self_extends(r.desk.log);
    let r3 = desk_recorded(r.desk, Kind::Result, EMPTY_NOTE@);
    assert(r3.log.entries.take(r.desk.log.entries.len() as int) =~= r.desk.log.entries);
}

proof fn lemma_collapsed_extends(r: RunV, set: Setup)
    ensures
        extends(r.desk.log, collapsed(r, set).desk.log),
{
    reveal(collapsed);
    assert(collapsed(r, set).desk.log.entries.take(r.desk.log.entries.len() as int)
        =~= r.desk.log.entries);
}

proof fn lemma_replied_extends(r: RunV, set: Setup, s: StatsV)
    ensures
        extends(r.desk.log, replied(r, set, s).0.desk.log),
{
    reveal(billed);
    reveal(closed_stream);
    reveal(replied);
    let r1 = closed_stream(billed(r, set, s), set);
    let length_capped = s.finish_reason == Some("length"@);
    assert(r1.desk.log.entries == r.desk.log.entries);
    lemma_self_extends(r.desk.log);
    if s.finish_reason == Some("degenerate"@) {
        let r2 = collapsed(r1, set);
        lemma_collapsed_extends(r1, set);
        lemma_extends(r.desk.log, r1.desk.log, r2.desk.log);
        lemma_prosed_extends(r2, length_capped);
        lemma_extends(r.desk.log, r2.desk.log, prosed(r2, length_capped).0.desk.log);
    } else {
        lemma_prosed_extends(RunV { n: Counts { degens: 0, ..r1.n }, ..r1 }, length_capped);
    }
}

proof fn lemma_gate_claims_extends(r: RunV, set: Setup)
    ensures
        extends(r.desk.log, gate_claims(r, set).0.desk.log),
{
    reveal(gate_claims);
    lemma_self_extends(r.desk.log);
    let es = gate_claims(r, set).0.desk.log.entries;
    assert(es.take(r.desk.log.entries.len() as int) =~= r.desk.log.entries);
}

proof fn lemma_turn_over_extends(
    r: RunV,
    set: Setup,
    nudge: bool,
    length_capped: bool,
    handback: bool,
)
    ensures
        extends(r.desk.log, turn_over(r, set, nudge, length_capped, handback).0.desk.log),
{
    reveal(gates);
    reveal(turn_over);
    lemma_tallied_keeps(r, set, nudge);
    let r1 = tallied(r, set, nudge);
    let r2 = if length_capped {
        run_noted(r1, LENGTH_NOTE@)
    } else {
        r1
    };
    lemma_self_extends(r1.desk.log);
    lemma_noted_extends(r1, LENGTH_NOTE@);
    lemma_extends(r.desk.log, r1.desk.log, r2.desk.log);
    let g = gates(r2, handback).0;
    assert(g.desk.log.entries.take(r2.desk.log.entries.len() as int) =~= r2.desk.log.entries);
    lemma_extends(r.desk.log, r2.desk.log, g.desk.log);
}

proof fn lemma_verify_joined_extends(r: RunV, set: Setup, verify: Option<(bool, Seq<char>)>)
    ensures
        extends(r.desk.log, verify_joined(r, set, verify).0.desk.log),
{
    reveal(gate_claims);
    reveal(verify_joined);
    lemma_self_extends(r.desk.log);
    match verify {
        None => {
            lemma_gate_claims_extends(r, set);
        },
        Some((ok, text)) => {
            let r1 = run_noted(r, text);
            lemma_noted_extends(r, text);
            lemma_gate_claims_extends(r1, set);
            lemma_self_extends(r1.desk.log);
            if ok {
                lemma_extends(r.desk.log, r1.desk.log, gate_plan(r1, set).0.desk.log);
            } else {
                let r2 = run_noted(r1, VERIFY_REFUSED@);
                lemma_noted_extends(r1, VERIFY_REFUSED@);
                lemma_extends(r.desk.log, r1.desk.log, r2.desk.log);
                lemma_failed_keeps(r2, set, "@verify"@, THINK_VERIFY@);
                lemma_extends(
                    r.desk.log,
                    r2.desk.log,
                    failed(r2, set, "@verify"@, THINK_VERIFY@).desk.log,
                );
            }
        },
    }
}

proof fn lemma_plan_gated_extends(r: RunV, set: Setup, news: PlanNewsV)
    ensures
        extends(r.desk.log, plan_gated(r, set, news).0.desk.log),
{
    reveal(plan_gated);
    let (r1, view, open) = planned(r, set, news);
    lemma_planned_keeps(r, set, news);
    if open.len() > 0 {
        lemma_noted_extends(r1, open_note(open, set.cfg.plan.file@));
    } else {
        lemma_gate_claims_extends(r1, set);
    }
    lemma_extends(r.desk.log, r1.desk.log, plan_gated(r, set, news).0.desk.log);
}

proof fn lemma_topped_extends(
    r: RunV,
    set: Setup,
    stopped: bool,
    inbox: Seq<Seq<char>>,
    back: Seq<Option<ReportV>>,
    verify: Option<(bool, Seq<char>)>,
)
    ensures
        extends(r.desk.log, topped(r, set, stopped, inbox, back, verify).0.desk.log),
{
    reveal(topped);
    lemma_self_extends(r.desk.log);
    let i = held_sum(r.n.turn as int, 1, u32::MAX as int) as u32;
    let r1 = RunV { n: Counts { turn: i, ..r.n }, ..r };
    lemma_turned_extends(r1, set, i, inbox, back, verify);
    lemma_after_plan_log(turned(r1, set, i, inbox, back, verify), set, ""@, false);
}

proof fn lemma_plan_looked_extends(r: RunV, set: Setup, news: PlanNewsV)
    ensures
        extends(r.desk.log, plan_looked(r, set, news).0.desk.log),
{
    reveal(plan_looked);
    lemma_planned_keeps(r, set, news);
    let (r1, view, open) = planned(r, set, news);
    lemma_after_plan_log(
        r1,
        set,
        view,
        dones_in(r1.seen, r1.seen.len() as int) > dones_in(r.seen, r.seen.len() as int),
    );
}

proof fn lemma_summarized_extends(r: RunV, set: Setup, news: Option<(Seq<char>, StatsV)>)
    ensures
        extends(r.desk.log, asked(summarized(r, set, news), set).0.desk.log),
{
    reveal(asked);
    reveal(summarized);
    lemma_self_extends(r.desk.log);
    assert(summarized(r, set, news).desk.log.entries == r.desk.log.entries);
}

proof fn lemma_streamed_extends(
    r: RunV,
    set: Setup,
    render_us: u128,
    result: Result<StatsV, Seq<char>>,
)
    ensures
        extends(r.desk.log, streamed(r, set, render_us, result).0.desk.log),
{
    reveal(stream_failed);
    reveal(streamed);
    let r1 = RunV {
        rep: ReportV {
            render_us: held_sum(r.rep.render_us as int, render_us as int, u128::MAX as int) as u128,
            ..r.rep
        },
        ..r
    };
    match result {
        Ok(s) => {
            lemma_replied_extends(r1, set, s);
        },
        Err(e) => {
            lemma_noted_extends(r1, "model error: "@ + e);
        },
    }
}

proof fn lemma_claims_checked_extends(r: RunV, set: Setup, news: Option<(Seq<char>, StatsV)>)
    ensures
        extends(r.desk.log, claims_checked(r, set, news).0.desk.log),
{
    reveal(claims_checked);
    let es = claims_checked(r, set, news).0.desk.log.entries;
    assert(es.take(r.desk.log.entries.len() as int) =~= r.desk.log.entries);
}

proof fn lemma_subs_back_extends(r: RunV, back: Seq<Option<ReportV>>)
    ensures
        extends(r.desk.log, subs_back(r, back).0.desk.log),
{
    reveal(harvested);
    reveal(subs_back);
    lemma_harvested_extends(r, back, true, r.desk.pending.len() as int);
    let r1 = harvested(r, back, true);
    lemma_noted_extends(r1, SUBS_BACK@);
    lemma_extends(r.desk.log, r1.desk.log, run_noted(r1, SUBS_BACK@).desk.log);
}

/// The ledger is lossless: no step of a run, a seal among them, changes or
/// removes an entry.
#[verifier::rlimit(60)]
pub proof fn no_step_loses_history(r: RunV, set: Setup, ev: EventV)
    ensures
        extends(r.desk.log, stepped(r, set, ev).0.desk.log),
{
    lemma_self_extends(r.desk.log);
    match (r.phase, ev) {
        (Phase::Top, EventV::Turn { stopped, inbox, back, verify }) => {
            lemma_topped_extends(r, set, stopped, inbox, back, verify);
        },
        (Phase::Plan, EventV::Plan { news }) => {
            lemma_plan_looked_extends(r, set, news);
        },
        (Phase::Seal, EventV::Summary { reply }) => {
            lemma_summarized_extends(r, set, reply);
        },
        (Phase::Stream, EventV::Streamed { render_us, result }) => {
            lemma_streamed_extends(r, set, render_us, result);
        },
        (Phase::Tail { nudge, length_capped, handback }, EventV::Dispatched) => {
            lemma_turn_over_extends(r, set, nudge, length_capped, handback);
        },
        (Phase::Verify, EventV::Verified { verify }) => {
            lemma_verify_joined_extends(r, set, verify);
        },
        (Phase::GatePlan, EventV::Plan { news }) => {
            lemma_plan_gated_extends(r, set, news);
        },
        (Phase::Claims, EventV::Checked { reply }) => {
            lemma_claims_checked_extends(r, set, reply);
        },
        (Phase::Subs, EventV::SubsBack { back }) => {
            lemma_subs_back_extends(r, back);
        },
        _ => {},
    }
}

/// A D that rides in with a failing check is refused, and so is one that comes
/// while the plan has open steps or cannot be read: the run goes on.
pub proof fn failing_work_refuses_d(
    r: RunV,
    set: Setup,
    text: Seq<char>,
    why: Seq<char>,
    tick: TickV,
    steps: Seq<crate::plan::Step>,
)
    ensures
        verify_joined(r, set, Some((false, text))).1 == (ActionV::NextTurn { wait_ms: 0 }),
        plan_gated(r, set, PlanNewsV::Broken(why)).1 == (ActionV::NextTurn { wait_ms: 0 }),
        open_steps(tick.plan.steps, tick.plan.steps.len() as int).len() > 0 ==> plan_gated(
            r,
            set,
            PlanNewsV::Ticked(tick, steps),
        ).1 == (ActionV::NextTurn { wait_ms: 0 }),
{
    reveal(planned);
    reveal(verify_joined);
    reveal(plan_gated);
}

/// Only a D ends a turn for good: after a turn that only worked and talked the
/// run goes on, unless refused commands pile up.
pub proof fn only_d_ends_a_run(
    r: RunV,
    set: Setup,
    nudge: bool,
    length_capped: bool,
    handback: bool,
)
    requires
        r.desk.done is None,
        r.desk.refusals < MAX_REFUSALS,
    ensures
        turn_over(r, set, nudge, length_capped, handback).1 == (ActionV::NextTurn { wait_ms: 0 }),
        turn_over(r, set, nudge, length_capped, handback).0.phase == Phase::Top,
{
    reveal(turn_over);
    lemma_tallied_keeps(r, set, nudge);
}

/// A run with a turn limit stops at it.
pub proof fn the_turn_limit_holds(
    r: RunV,
    set: Setup,
    stopped: bool,
    inbox: Seq<Seq<char>>,
    back: Seq<Option<ReportV>>,
    verify: Option<(bool, Seq<char>)>,
)
    requires
        set.max_turns > 0,
        set.max_turns <= r.n.turn < u32::MAX,
    ensures
        topped(r, set, stopped, inbox, back, verify).1 == ActionV::End,
{
    reveal(topped);
}

/// The sixth failure of the endpoint in a row ends the run, with a message
/// that names the endpoint.
pub proof fn a_dead_endpoint_ends_the_run(r: RunV, set: Setup, e: Seq<char>)
    requires
        r.n.errs == MAX_ERRORS - 1,
    ensures
        stream_failed(r, set, e).1 == ActionV::End,
        stream_failed(r, set, e).0.rep.final_msg == endpoint_end(
            MAX_ERRORS,
            set.cfg.model.base_url@,
        ),
{
    reveal(stream_failed);
}

/// A model that keeps sending refused commands is stopped at the twelfth.
pub proof fn refused_commands_end_the_run(
    r: RunV,
    set: Setup,
    nudge: bool,
    length_capped: bool,
    handback: bool,
)
    requires
        r.desk.refusals >= MAX_REFUSALS,
    ensures
        turn_over(r, set, nudge, length_capped, handback).1 == ActionV::End,
        turn_over(r, set, nudge, length_capped, handback).0.rep.final_msg == STUCK_END@,
{
    reveal(turn_over);
    lemma_tallied_keeps(r, set, nudge);
}

/// A model that produces nothing is stopped: at the sixth collapse in a row,
/// and at the third turn in a row without a command or any prose.
pub proof fn silence_is_stopped(r: RunV, set: Setup, s: StatsV, length_capped: bool)
    ensures
        r.n.degens >= MAX_COLLAPSES - 1 && s.finish_reason == Some("degenerate"@) ==> replied(
            r,
            set,
            s,
        ).1 == ActionV::End,
        r.n.empty >= MAX_EMPTY_TURNS - 1 && r.desk.executed == 0 && r.tail.len() == 0 && trimmed(
            r.lex.dropped_text,
        ).len() == 0 ==> prosed(r, length_capped).1 == ActionV::End,
{
    reveal(billed);
    reveal(closed_stream);
    reveal(prosed);
    reveal(replied);
    let r1 = closed_stream(billed(r, set, s), set);
    assert(r1.n.degens == r.n.degens);
    lemma_collapses_count(r1, set);
}

proof fn lemma_collapses_count(r: RunV, set: Setup)
    ensures
        collapsed(r, set).n.degens == held_sum(r.n.degens as int, 1, u32::MAX as int),
{
    reveal(collapsed);
}

/// A model that only narrates is handed back after three turns, and at once if
/// it says the same thing twice in a row: the run then ends with a message
/// that says so, and not with the narration.
pub proof fn narration_is_handed_back(r: RunV, set: Setup, length_capped: bool)
    requires
        r.lex.dropped == 0,
        talk_only(r),
        r.n.talk >= MAX_TALK_TURNS - 1 || hash_of(joined(said(r.tail), "\n"@)) == r.n.last_talk,
    ensures
        ({
            let (r1, a) = settled(r, length_capped, false);
            &&& a == (ActionV::Dispatch { commands: r.tail })
            &&& r1.phase == (Phase::Tail { nudge: false, length_capped, handback: true })
            &&& r1.desk.done == Some(talk_end(r1.n.talk))
            &&& r1.n.talk >= MAX_TALK_TURNS
        }),
{
    reveal(settled);
}

/// Endpoint hiccups do not burn turns: a turn that failed at the endpoint and
/// is tried again counts once.
pub proof fn retries_do_not_burn_turns(
    r: RunV,
    set: Setup,
    inbox: Seq<Seq<char>>,
    back: Seq<Option<ReportV>>,
    verify: Option<(bool, Seq<char>)>,
    failing: RunV,
    e: Seq<char>,
)
    requires
        r.n.turn < u32::MAX,
        set.max_turns == 0 || r.n.turn < set.max_turns,
        failing.n.turn == topped(r, set, false, inbox, back, verify).0.n.turn,
        failing.n.errs < MAX_ERRORS - 1,
    ensures
        topped(r, set, false, inbox, back, verify).0.n.turn == r.n.turn + 1,
        stream_failed(failing, set, e).0.n.turn == r.n.turn,
{
    reveal(topped);
    reveal(stream_failed);
    let i = (r.n.turn + 1) as u32;
    let r1 = RunV { n: Counts { turn: i, ..r.n }, ..r };
    lemma_turned_extends(r1, set, i, inbox, back, verify);
    lemma_after_plan_log(turned(r1, set, i, inbox, back, verify), set, ""@, false);
}

/// A briefing that degenerated, or that is more than half as long as what it
/// replaces, never becomes a seal.
pub proof fn bad_briefings_are_not_sealed(r: RunV, set: Setup, text: Seq<char>, s: StatsV)
    requires
        s.finish_reason == Some("degenerate"@) || !shrank(s),
    ensures
        summarized(r, set, Some((text, s))).rend == r.rend,
        summarized(r, set, Some((text, s))).rep.seals == r.rep.seals,
{
    reveal(summarized);
}

proof fn lemma_parted_concat(a: Seq<CmdV>, b: Seq<CmdV>, waiting: bool, n: int)
    requires
        0 <= n <= b.len(),
    ensures
        parted(a + b, waiting, a.len() + n) == parted(a, waiting, a.len() as int) + parted(
            b,
            waiting,
            n,
        ),
    decreases n,
{
    if n > 0 {
        lemma_parted_concat(a, b, waiting, n - 1);
        assert((a + b)[a.len() + n - 1] == b[n - 1]);
        assert(parted(a + b, waiting, a.len() + n) =~= parted(a, waiting, a.len() as int) + parted(
            b,
            waiting,
            n,
        ));
    } else {
        lemma_parted_prefix(a, b, waiting, a.len() as int);
        assert(parted(a, waiting, a.len() as int) + parted(b, waiting, 0) =~= parted(
            a,
            waiting,
            a.len() as int,
        ));
    }
}

proof fn lemma_parted_prefix(a: Seq<CmdV>, b: Seq<CmdV>, waiting: bool, n: int)
    requires
        0 <= n <= a.len(),
    ensures
        parted(a + b, waiting, n) == parted(a, waiting, n),
    decreases n,
{
    if n > 0 {
        lemma_parted_prefix(a, b, waiting, n - 1);
        assert((a + b)[n - 1] == a[n - 1]);
    }
}

/// How the provider cuts the stream into chunks does not matter: the same
/// commands run at once, in the same order, and the same commands wait.
pub proof fn chunks_of_a_stream_do_not_matter(r: RunV, a: Seq<char>, b: Seq<char>)
    ensures
        ({
            let (r1, now1) = fed(r, a);
            let (r2, now2) = fed(r1, b);
            let (whole, now) = fed(r, a + b);
            &&& now == now1 + now2
            &&& whole.tail == r2.tail
            &&& whole.lex == r2.lex
        }),
{
    crate::dsl::chunking_is_invisible(r.lex, a, b);
    let out1 = lexed(r.lex, a).1;
    let out2 = lexed(lexed(r.lex, a).0, b).1;
    lemma_parted_concat(out1, out2, false, out2.len() as int);
    lemma_parted_concat(out1, out2, true, out2.len() as int);
    assert((out1 + out2).len() == out1.len() + out2.len());
    assert(fed(r, a + b).0.tail =~= fed(fed(r, a).0, b).0.tail);
}

proof fn lemma_tallied_verify(r: RunV, set: Setup, nudge: bool)
    ensures
        ({
            let t = tallied(r, set, nudge);
            &&& t.verify_wanted == (r.desk.edited && set.cfg.verify.cmd is Some)
            &&& t.desk.says == r.desk.says
            &&& t.lex == r.lex
            &&& t.n.bounces == r.n.bounces
        }),
{
    reveal(thought);
    reveal(tallied);
}

/// A turn that edited something asks for the configured check, a turn that did
/// not asks for none; and a D in such a turn waits for it: the run does not end
/// before the check has come back, and if it failed the D is refused and its
/// output is recorded.
pub proof fn edits_are_checked_before_the_end(
    r: RunV,
    set: Setup,
    nudge: bool,
    length_capped: bool,
    text: Seq<char>,
)
    ensures
        ({
            let (after, action) = turn_over(r, set, nudge, length_capped, false);
            &&& after.verify_wanted <==> r.desk.edited && set.cfg.verify.cmd is Some
            &&& action == ActionV::End ==> r.desk.refusals >= MAX_REFUSALS
            &&& r.desk.done is Some && r.desk.refusals < MAX_REFUSALS && r.lex.dropped < 3
                && !is_echo(r.desk.says, r.desk.done->0) ==> action == ActionV::AwaitVerify
                && after.phase == Phase::Verify
        }),
        ({
            let (after, action) = verify_joined(r, set, Some((false, text)));
            let n = r.desk.log.entries.len() as int;
            &&& action == (ActionV::NextTurn { wait_ms: 0 })
            &&& after.desk.log.entries.len() > n
            &&& after.desk.log.entries[n].text == text
            &&& after.desk.log.entries[n].kind == Kind::Result
        }),
{
    reveal(gates);
    reveal(turn_over);
    reveal(verify_joined);
    lemma_tallied_keeps(r, set, nudge);
    lemma_tallied_verify(r, set, nudge);
}

/// The check's outcome names the command, and says PASS exactly where its output
/// begins with `ok`.
pub proof fn the_check_says_how_it_went(cfg: Config, out: Seq<char>)
    requires
        cfg.verify.cmd is Some,
    ensures
        begins(out, "ok"@) ==> begins(
            verify_text(cfg, out),
            "(auto-verify PASS: `"@ + (cfg.verify.cmd->0)@ + "`)\n"@,
        ),
        !begins(out, "ok"@) ==> begins(
            verify_text(cfg, out),
            "(auto-verify FAIL: `"@ + (cfg.verify.cmd->0)@ + "`)\n"@,
        ),
        crate::text::ends(verify_text(cfg, out), pruned(cfg.verify.prune@, out)),
{
    reveal_strlit("(auto-verify ");
    reveal_strlit("PASS");
    reveal_strlit("FAIL");
    reveal_strlit(": `");
    reveal_strlit("(auto-verify PASS: `");
    reveal_strlit("(auto-verify FAIL: `");
    let t = verify_text(cfg, out);
    let c = (cfg.verify.cmd->0)@;
    let good = "(auto-verify PASS: `"@ + c + "`)\n"@;
    let bad = "(auto-verify FAIL: `"@ + c + "`)\n"@;
    if begins(out, "ok"@) {
        assert(t.subrange(0, good.len() as int) =~= good);
    } else {
        assert(t.subrange(0, bad.len() as int) =~= bad);
    }
    let tail = pruned(cfg.verify.prune@, out);
    assert(t.subrange(t.len() - tail.len(), t.len() as int) =~= tail);
}

/// Work runs the moment its command is complete; what is said, and D, wait for
/// the end of the stream, in the order in which they came.
pub proof fn work_runs_at_once_and_talk_waits(r: RunV, delta: Seq<char>, c: CmdV)
    requires
        lexed(r.lex, delta).1 == seq![c],
    ensures
        (match c {
            CmdV::Say { text } => true,
            CmdV::Done { msg } => true,
            _ => false,
        }) ==> fed(r, delta).1 == Seq::<CmdV>::empty() && fed(r, delta).0.tail == r.tail.push(c),
        !(match c {
            CmdV::Say { text } => true,
            CmdV::Done { msg } => true,
            _ => false,
        }) ==> fed(r, delta).1 == seq![c] && fed(r, delta).0.tail == r.tail,
{
    let out = seq![c];
    reveal_with_fuel(parted, 2);
    assert(out[0] == c);
    assert(parted(out, true, 1) =~= (if waits(c) {
        seq![c]
    } else {
        Seq::empty()
    }));
    assert(parted(out, false, 1) =~= (if waits(c) {
        Seq::empty()
    } else {
        seq![c]
    }));
    assert(r.tail + seq![c] =~= r.tail.push(c));
    assert(r.tail + Seq::<CmdV>::empty() =~= r.tail);
}

/// What the model is asked begins with the document of the turn and ends with
/// the call for commands; the plan as it stands is in between. The images that
/// were queued go with it, and are then gone. It deliberates exactly while
/// deliberation is armed, one turn less each time.
pub proof fn a_request_carries_the_document(r: RunV, set: Setup)
    ensures
        asked(r, set).1 is Ask,
        begins(asked(r, set).1->Ask_user, doc_of(r, set)),
        crate::text::ends(asked(r, set).1->Ask_user, "## NOW\nNext commands:\n"@),
        exists|k: int| #[trigger]
            crate::text::occurs_at(asked(r, set).1->Ask_user, r.plan_view, k),
        asked(r, set).1->Ask_images == r.desk.images,
        asked(r, set).0.desk.images.len() == 0,
        asked(r, set).1->Ask_think == (r.n.think_left > 0 && set.cfg.model.think is Some),
        asked(r, set).0.n.think_left == (if r.n.think_left > 0 {
            r.n.think_left - 1
        } else {
            0
        }),
        asked(r, set).0.desk.done is None,
        !asked(r, set).0.desk.edited,
        asked(r, set).0.tail.len() == 0,
        asked(r, set).0.desk.log == r.desk.log,
{
    reveal(asked);
    let user = request_of(r, set);
    let doc = doc_of(r, set);
    assert(user.subrange(0, doc.len() as int) =~= doc);
    let end = "## NOW\nNext commands:\n"@;
    assert(user.subrange(user.len() - end.len(), user.len() as int) =~= end);
    let k = user.len() - end.len() - NO_PROSE_REMINDER@.len() - r.plan_view.len();
    assert(user.subrange(k, k + r.plan_view.len()) =~= r.plan_view);
    assert(crate::text::occurs_at(user, r.plan_view, k));
}

/// A briefing that is not empty, not degenerate, and at most half as long as
/// what it replaces, becomes a seal: the history reseals behind a text that
/// begins with it, and the seal is counted.
pub proof fn good_briefings_are_sealed(r: RunV, set: Setup, text: Seq<char>, s: StatsV)
    requires
        s.finish_reason != Some("degenerate"@),
        s.prompt_tokens == 0 || s.completion_tokens * 2 <= s.prompt_tokens,
        cleaned(trimmed(text)).len() > 0,
        !crate::text::is_space(cleaned(trimmed(text))[0]),
        !crate::text::is_space(cleaned(trimmed(text)).last()),
        r.rep.seals < u32::MAX,
    ensures
        summarized(r, set, Some((text, s))).rep.seals == r.rep.seals + 1,
        summarized(r, set, Some((text, s))).desk.log.entries == r.desk.log.entries,
        exists|b: Seq<char>|
            begins(b, cleaned(trimmed(text))) && summarized(r, set, Some((text, s))).rend
                == #[trigger] sealed(
                r.rend,
                r.desk.log.entries,
                set.cfg.context.compact_keep_last as int,
                b,
            ),
        summarized(r, set, None) == r,
{
    reveal(summarized);
    let summary = cleaned(trimmed(text));
    let all = summary + "\n"@ + legend_text(r.ws.files, 0);
    let b = trimmed(all);
    assert(all[0] == summary[0]);
    assert(crate::text::trimmed_start(all) =~= all);
    crate::text::lemma_trimmed_end(all);
    assert(b.len() >= summary.len()) by {
        if b.len() < summary.len() {
            assert(crate::text::is_space(all[summary.len() - 1]));
        }
    }
    assert(b.subrange(0, summary.len() as int) =~= summary);
    assert(begins(b, summary));
}

proof fn lemma_steered(log: LogV, turn: u32, msgs: Seq<Seq<char>>)
    ensures
        ({
            let after = steered(log, turn, msgs).entries;
            &&& after.len() == log.entries.len() + msgs.len()
            &&& after.take(log.entries.len() as int) == log.entries
            &&& forall|k: int|
                0 <= k < msgs.len() ==> {
                    let e = after[log.entries.len() + k];
                    e.kind == Kind::Task && e.text == #[trigger] msgs[k] && e.turn == turn
                }
        }),
    decreases msgs.len(),
{
    let after = steered(log, turn, msgs).entries;
    if msgs.len() == 0 {
        assert(after.take(log.entries.len() as int) =~= log.entries);
    } else {
        lemma_steered(log, turn, msgs.drop_last());
        let before = steered(log, turn, msgs.drop_last()).entries;
        assert(after.take(log.entries.len() as int) =~= before.take(log.entries.len() as int));
        assert forall|k: int| 0 <= k < msgs.len() implies ({
            let e = after[log.entries.len() + k];
            e.kind == Kind::Task && e.text == #[trigger] msgs[k] && e.turn == turn
        }) by {
            if k < msgs.len() - 1 {
                assert(msgs.drop_last()[k] == msgs[k]);
                assert(after[log.entries.len() + k] == before[log.entries.len() + k]);
            }
        }
    }
}

proof fn lemma_steered_at(log: LogV, turn: u32, msgs: Seq<Seq<char>>, k: int)
    requires
        0 <= k < msgs.len(),
    ensures
        steered(log, turn, msgs).entries.len() == log.entries.len() + msgs.len(),
        steered(log, turn, msgs).entries[log.entries.len() + k].kind == Kind::Task,
        steered(log, turn, msgs).entries[log.entries.len() + k].text == msgs[k],
{
    lemma_steered(log, turn, msgs);
    let m = msgs[k];
}

/// What the user sent meanwhile lands at the start of a turn of the main agent:
/// each message as a task, in order, word for word.
pub proof fn messages_land_as_tasks(
    r: RunV,
    set: Setup,
    i: u32,
    inbox: Seq<Seq<char>>,
    back: Seq<Option<ReportV>>,
    verify: Option<(bool, Seq<char>)>,
    k: int,
)
    requires
        r.desk.log.depth == 0,
        0 <= k < inbox.len(),
    ensures
        ({
            let after = turned(r, set, i, inbox, back, verify).desk.log.entries;
            let n = r.desk.log.entries.len();
            &&& after.len() >= n + inbox.len()
            &&& after[n + k].kind == Kind::Task
            &&& after[n + k].text == inbox[k]
        }),
{
    let turn = held_sum(set.base as int, i as int, u32::MAX as int) as u32;
    let d1 = desk_emitted(DeskV { turn, ..r.desk }, EvV::Turn(i));
    lemma_steered_at(d1.log, turn, inbox, k);
    let r2 = RunV {
        desk: DeskV { log: steered(d1.log, turn, inbox), ..d1 },
        rep: ReportV { turns: i, ..r.rep },
        ..r
    };
    reveal(harvested);
    reveal(turned);
    lemma_harvested_extends(r2, back, false, r2.desk.pending.len() as int);
    let r3 = harvested(r2, back, false);
    let n = r.desk.log.entries.len() as int;
    let m = r2.desk.log.entries.len() as int;
    let first = d1.log.entries.len() as int;
    assert(first == n);
    let e = steered(d1.log, turn, inbox).entries[d1.log.entries.len() + k];
    assert(e.kind == Kind::Task && e.text == inbox[k]);
    assert(r3.desk.log.entries.take(m)[n + k] == r2.desk.log.entries[n + k]);
    assert(r3.desk.log.entries[n + k] == e);
    match verify {
        Some((ok, text)) => {
            lemma_verify_back_extends(r3, set, ok, text);
            let r4 = verify_back(r3, set, ok, text);
            let p = r3.desk.log.entries.len() as int;
            assert(r4.desk.log.entries.take(p)[n + k] == r3.desk.log.entries[n + k]);
            assert(turned(r, set, i, inbox, back, verify) == r4);
        },
        None => {
            assert(turned(r, set, i, inbox, back, verify) == r3);
        },
    }
}

proof fn lemma_verify_back_extends(r: RunV, set: Setup, ok: bool, text: Seq<char>)
    ensures
        extends(r.desk.log, verify_back(r, set, ok, text).desk.log),
{
    reveal(verify_back);
    let after = verify_back(r, set, ok, text);
    assert(after.desk.log.entries.take(r.desk.log.entries.len() as int) =~= r.desk.log.entries);
}

/// A stop ends the run at the start of the next turn, with a message that says
/// so.
pub proof fn a_stop_ends_the_run(
    r: RunV,
    set: Setup,
    inbox: Seq<Seq<char>>,
    back: Seq<Option<ReportV>>,
    verify: Option<(bool, Seq<char>)>,
)
    requires
        set.max_turns == 0 || r.n.turn < set.max_turns,
        r.n.turn < u32::MAX,
    ensures
        topped(r, set, true, inbox, back, verify).1 == ActionV::End,
        topped(r, set, true, inbox, back, verify).0.rep.final_msg == "(stopped)"@,
        topped(r, set, false, inbox, back, verify).1 != ActionV::End,
{
    reveal(topped);
    reveal(after_plan);
    reveal(asked);
}

/// Each retry waits twice as long as the one before, from half a second up to
/// four.
pub proof fn retries_back_off(errs: u32)
    requires
        1 <= errs < u32::MAX,
    ensures
        backoff_ms(1) == 500,
        backoff_ms((errs + 1) as u32) == (if 2 * backoff_ms(errs) < 4000 {
            2 * backoff_ms(errs)
        } else {
            4000
        }),
{
}

/// A failure of the endpoint is told to the model, and the turn is tried again
/// until the sixth in a row; a reply forgets the failures before it.
pub proof fn endpoint_failures_are_counted(r: RunV, set: Setup, e: Seq<char>, s: StatsV)
    requires
        r.n.errs < 6,
    ensures
        stream_failed(r, set, e).0.n.errs == r.n.errs + 1,
        stream_failed(r, set, e).1 == ActionV::End <==> r.n.errs == 5,
        stream_failed(r, set, e).0.desk.log.entries.len() == r.desk.log.entries.len() + 1,
        stream_failed(r, set, e).0.desk.log.entries.last().text == "model error: "@ + e,
        billed(r, set, s).n.errs == 0,
{
    reveal(stream_failed);
    reveal(billed);
}

/// The report adds up what the provider billed.
pub proof fn usage_adds_up(rep: ReportV, s: StatsV)
    requires
        rep.tok_in + s.prompt_tokens <= u64::MAX,
        rep.tok_out + s.completion_tokens <= u64::MAX,
        s.cached_tokens is Some ==> rep.tok_cached + s.cached_tokens->0 <= u64::MAX,
        rep.model_ms + s.total_ms <= u128::MAX,
    ensures
        with_usage(rep, s).tok_in == rep.tok_in + s.prompt_tokens,
        with_usage(rep, s).tok_out == rep.tok_out + s.completion_tokens,
        with_usage(rep, s).tok_cached == rep.tok_cached + (match s.cached_tokens {
            Some(c) => c as int,
            None => 0,
        }),
        with_usage(rep, s).model_ms == rep.model_ms + s.total_ms,
        with_usage(rep, s).cached_reported <==> rep.cached_reported || s.cached_tokens is Some,
        with_usage(rep, s).turns == rep.turns,
        with_usage(rep, s).commands == rep.commands,
{
}

/// A D that only repeats what the turn said, or that comes with three or more
/// lines of dropped prose, is refused with a note, the latter at most three
/// times; a handback is never refused.
pub proof fn careless_ds_are_refused(r: RunV)
    ensures
        r.lex.dropped >= 3 && r.n.bounces < 3 ==> gates(r, false).1 == (ActionV::NextTurn {
            wait_ms: 0,
        }) && gates(r, false).0.n.bounces == r.n.bounces + 1
            && gates(r, false).0.desk.log.entries.len() == r.desk.log.entries.len() + 1,
        (r.lex.dropped < 3 || r.n.bounces >= 3) && is_echo(r.desk.says, done_msg(r)) ==> gates(
            r,
            false,
        ).1 == (ActionV::NextTurn { wait_ms: 0 }) && gates(r, false).0.desk.log.entries.len()
            == r.desk.log.entries.len() + 1,
        (r.lex.dropped < 3 || r.n.bounces >= 3) && !is_echo(r.desk.says, done_msg(r)) ==> gates(
            r,
            false,
        ).1 == ActionV::AwaitVerify,
        gates(r, true).1 == ActionV::End <==> r.desk.pending.len() == 0,
        gates(r, true).1 == ActionV::AwaitSubs <==> r.desk.pending.len() > 0,
{
    reveal(gates);
}

/// A D that says word for word what the turn already said is an echo; one that
/// shares no start with anything said is none.
pub proof fn an_echo_repeats_what_was_said(says: Seq<Seq<char>>, msg: Seq<char>, i: int)
    requires
        0 <= i < says.len(),
    ensures
        lowered(cleaned(msg)).len() > 0 && lowered(trimmed(says[i])) == lowered(cleaned(msg))
            ==> is_echo(says, msg),
        lowered(cleaned(msg)).len() == 0 ==> !is_echo(says, msg),
        (forall|k: int|
            0 <= k < says.len() ==> !begins(
                lowered(trimmed(#[trigger] says[k])),
                lowered(cleaned(msg)),
            ) && !begins(lowered(cleaned(msg)), lowered(trimmed(says[k])))) ==> !is_echo(says, msg),
{
    let d = lowered(cleaned(msg));
    if lowered(trimmed(says[i])) == d {
        assert(echoes(says[i], d));
    }
    if forall|k: int|
        0 <= k < says.len() ==> !begins(lowered(trimmed(#[trigger] says[k])), d) && !begins(
            d,
            lowered(trimmed(says[k])),
        ) {
        assert forall|k: int| 0 <= k < says.len() implies !echoes(#[trigger] says[k], d) by {
            let s = lowered(trimmed(says[k]));
            if s == d {
                assert(s.subrange(0, d.len() as int) =~= d);
            }
        }
    }
}

/// Where reports are checked, the main agent's D meets the check before it ends
/// the run, twice at most; only a verdict that is empty or begins with `ok` lets
/// it pass, any other is recorded and refuses it.
pub proof fn claims_are_checked(r: RunV, set: Setup, verdict: Seq<char>, s: StatsV)
    requires
        set.cfg.verify.claims,
        r.desk.log.depth == 0,
        r.n.claims < 2,
    ensures
        gate_claims(r, set).1 is CheckClaims,
        gate_claims(r, set).0.phase == Phase::Claims,
        trimmed(verdict).len() > 0 && !begins(lowered(trimmed(verdict)), "ok"@) ==> claims_checked(
            r,
            set,
            Some((verdict, s)),
        ).1 == (ActionV::NextTurn { wait_ms: 0 }) && claims_checked(
            r,
            set,
            Some((verdict, s)),
        ).0.n.claims == r.n.claims + 1 && claims_checked(
            r,
            set,
            Some((verdict, s)),
        ).0.desk.log.entries.len() == r.desk.log.entries.len() + 1,
        (trimmed(verdict).len() == 0 || begins(lowered(trimmed(verdict)), "ok"@))
            && r.desk.pending.len() == 0 ==> claims_checked(r, set, Some((verdict, s))).1
            == ActionV::End,
        r.desk.pending.len() == 0 ==> claims_checked(r, set, None).1 == ActionV::End,
{
    reveal(gate_claims);
    reveal(claims_checked);
}

/// A run that finishes ends with the message of its D, which is recorded as
/// final; an empty one reads `done.`.
pub proof fn a_run_ends_with_its_message(r: RunV)
    ensures
        finished(r).1 == ActionV::End,
        finished(r).0.desk.log.entries.len() == r.desk.log.entries.len() + 1,
        finished(r).0.desk.log.entries.last().kind == Kind::Final,
        finished(r).0.desk.log.entries.last().text == finished(r).0.rep.final_msg,
        r.desk.done is Some && cleaned(r.desk.done->0).len() > 0 ==> finished(r).0.rep.final_msg
            == cleaned(r.desk.done->0),
        r.desk.done is Some && cleaned(r.desk.done->0).len() == 0 ==> finished(r).0.rep.final_msg
            == "done."@,
{
}

/// A subagent that comes back leaves its brief: who it was, how many turns it
/// took, and its whole final message; its model time is added to the run's.
pub proof fn a_brief_is_the_whole_message(r: RunV, name: Seq<char>, sub: ReportV)
    requires
        r.rep.model_ms + sub.model_ms <= u128::MAX,
    ensures
        harvested_one(r, name, sub).desk.log.entries.len() == r.desk.log.entries.len() + 1,
        harvested_one(r, name, sub).desk.log.entries.last().kind == Kind::Result,
        begins(harvested_one(r, name, sub).desk.log.entries.last().text, "["@ + name + "] ("@),
        crate::text::ends(
            harvested_one(r, name, sub).desk.log.entries.last().text,
            " turns) "@ + sub.final_msg,
        ),
        harvested_one(r, name, sub).rep.model_ms == r.rep.model_ms + sub.model_ms,
{
    let t = brief(name, sub.turns, sub.final_msg);
    let head = "["@ + name + "] ("@;
    let end = " turns) "@ + sub.final_msg;
    assert(t.subrange(0, head.len() as int) =~= head);
    assert(t.subrange(t.len() - end.len(), t.len() as int) =~= end);
}

/// The check that failed `after` times in a row arms deliberation, where the
/// config names that trigger; a check that passed starts the count over.
pub proof fn repeated_failures_arm_deliberation(r: RunV, set: Setup, text: Seq<char>)
    requires
        crate::table::in_order(crate::table::keys_in(r.vfails)),
    ensures
        ({
            let before = match lookup(r.vfails, "@verify"@) {
                Some(c) => c as int,
                None => 0,
            };
            let after = verify_back(r, set, false, text);
            &&& before < u32::MAX ==> lookup(after.vfails, "@verify"@) == Some(
                (before + 1) as u32,
            )
            &&& before < u32::MAX && before + 1 >= think_after(set.cfg) && think_on(
                set.cfg,
                "verify_fail"@,
            ) ==> after.n.think_left >= think_turns(set.cfg)
            &&& before < u32::MAX && before + 1 < think_after(set.cfg) ==> after.n.think_left
                == r.n.think_left
            &&& !think_on(set.cfg, "verify_fail"@) ==> after.n.think_left == r.n.think_left
        }),
        lookup(verify_back(r, set, true, text).vfails, "@verify"@) == Some(0u32),
        verify_back(r, set, true, text).n == r.n,
        verify_back(r, set, true, text).desk.log.entries.last().text == text,
{
    reveal(verify_back);
    crate::table::put_sets_one_key(r.vfails, "@verify"@, 0);
    let before = match lookup(r.vfails, "@verify"@) {
        Some(c) => c,
        None => 0,
    };
    let c = held_sum(before as int, 1, u32::MAX as int) as u32;
    crate::table::put_sets_one_key(r.vfails, "@verify"@, c);
}

/// A turn that did no work but wrote prose delivers it: the prose is said to the
/// user, once, after whatever else the turn has left to say.
pub proof fn prose_is_delivered(r: RunV, length_capped: bool)
    requires
        r.desk.executed == 0,
        trimmed(r.lex.dropped_text).len() > 0,
    ensures
        prosed(r, length_capped).1 == (ActionV::Dispatch {
            commands: r.tail.push(CmdV::Say { text: trimmed(r.lex.dropped_text) }),
        }),
{
    reveal(prosed);
    reveal(settled);
}

/// A reply that collapsed into repetition never ends the run with its D: what is
/// left to dispatch holds all the other commands, in order, and no D.
pub proof fn a_collapse_drops_its_d(r: RunV, set: Setup)
    ensures
        forall|i: int| 0 <= i < collapsed(r, set).tail.len() ==> !(#[trigger] collapsed(
            r,
            set,
        ).tail[i] is Done),
        (forall|i: int| 0 <= i < r.tail.len() ==> !(#[trigger] r.tail[i] is Done)) ==> collapsed(
            r,
            set,
        ).tail == r.tail,
        forall|i: int|
            0 <= i < r.tail.len() && !(#[trigger] r.tail[i] is Done) ==> collapsed(
                r,
                set,
            ).tail.contains(r.tail[i]),
{
    reveal(collapsed);
    lemma_without_done(r.tail, r.tail.len() as int);
    assert(r.tail.take(r.tail.len() as int) =~= r.tail);
}

proof fn lemma_without_done(v: Seq<CmdV>, n: int)
    requires
        0 <= n <= v.len(),
    ensures
        forall|i: int| 0 <= i < without_done(v, n).len() ==> !(#[trigger] without_done(v, n)[i]
            is Done),
        (forall|i: int| 0 <= i < n ==> !(#[trigger] v[i] is Done)) ==> without_done(v, n)
            == v.take(n),
        forall|i: int|
            0 <= i < n && !(#[trigger] v[i] is Done) ==> without_done(v, n).contains(v[i]),
    decreases n,
{
    if n > 0 {
        lemma_without_done(v, n - 1);
        let before = without_done(v, n - 1);
        let now = without_done(v, n);
        assert(v.take(n) =~= v.take(n - 1).push(v[n - 1]));
        assert forall|i: int| 0 <= i < n && !(#[trigger] v[i] is Done) implies now.contains(v[i]) by {
            if i < n - 1 {
                let j = before.index_of(v[i]);
                assert(now[j] == v[i]);
            } else {
                assert(now[now.len() - 1] == v[i]);
            }
        }
    } else {
        assert(v.take(0) =~= Seq::<CmdV>::empty());
    }
}

/// A profile's own limits hold for its run; without a profile the config's do. All
/// else is the config's.
pub proof fn a_profile_sets_its_limits(cfg: Config, p: ProfileCfg, base: u32, system: String)
    ensures
        setup_of(cfg, Some(p), base, system).max_turns == p.max_turns,
        setup_of(cfg, Some(p), base, system).cfg.context.budget_tokens == p.budget_tokens,
        setup_of(cfg, Some(p), base, system).cfg == (Config {
            context: CtxCfg { budget_tokens: p.budget_tokens, ..cfg.context },
            ..cfg
        }),
        setup_of(cfg, None, base, system).max_turns == cfg.context.max_turns,
        setup_of(cfg, None, base, system).cfg == cfg,
        setup_of(cfg, Some(p), base, system).base == base,
        setup_of(cfg, None, base, system).base == base,
        setup_of(cfg, Some(p), base, system).system == system,
        setup_of(cfg, None, base, system).system == system,
{
}

/// A profile is found by its name and brings its own words and tools; no name is no
/// profile.
pub proof fn profiles_are_found_by_name(cfg: Config, name: Seq<char>, p: ProfileCfg)
    ensures
        profile_named(cfg, Some(name)) == lookup(cfg.profile@, name),
        profile_named(cfg, None) is None,
        profile_system(Some(p)) == Some(p.system@),
        profile_tools(Some(p)) == Some(p.tools@),
        profile_system(None) is None,
        profile_tools(None) is None,
{
}

/// The report counts in the plural but for one, shows tokens in thousands from ten
/// thousand on, and the share that came from the cache where there was any; without
/// a count from the endpoint it says what was sent, as an estimate.
pub proof fn the_report_counts(n: nat, one: Seq<char>, t: u64, k: Seq<char>, rep: ReportV, l: Seq<char>)
    ensures
        counted_text(1, one) == decimal(1) + one,
        n != 1 ==> counted_text(n, one) == decimal(n) + one + seq!['s'],
        t < 10_000 ==> fmt_k_of(t, k) == decimal(t as nat) + seq!['t'],
        t >= 10_000 ==> fmt_k_of(t, k) == k + seq!['k'],
        rep.tok_in == 0 ==> cost_text(rep, k, l) == seq!['~'] + decimal(rep.sent_tokens as nat)
            + "t sent"@,
        rep.tok_in > 0 ==> begins(cost_text(rep, k, l), "in "@ + fmt_k_of(rep.tok_in, k))
            && crate::text::ends(cost_text(rep, k, l), " · out "@ + fmt_k_of(rep.tok_out, l)),
        rep.tok_in > 0 && rep.tok_cached == rep.tok_in ==> cost_text(rep, k, l) == "in "@ + fmt_k_of(
            rep.tok_in,
            k,
        ) + " (100% cached) · out "@ + fmt_k_of(rep.tok_out, l),
        rep.tok_in > 0 && rep.tok_cached == 0 ==> cost_text(rep, k, l) == "in "@ + fmt_k_of(
            rep.tok_in,
            k,
        ) + " · out "@ + fmt_k_of(rep.tok_out, l),
{
    reveal_strlit("");
    reveal_strlit("s");
    reveal_strlit("k");
    reveal_strlit("t");
    reveal_strlit("~");
    assert("s"@ =~= seq!['s']);
    assert("k"@ =~= seq!['k']);
    assert("t"@ =~= seq!['t']);
    assert("~"@ =~= seq!['~']);
    assert(counted_text(1, one) =~= decimal(1) + one);
    if rep.tok_in > 0 {
        let i = "in "@ + fmt_k_of(rep.tok_in, k);
        let o = fmt_k_of(rep.tok_out, l);
        let c = cost_text(rep, k, l);
        lemma_cost(rep, k, l);
        assert(c.subrange(0, i.len() as int) =~= i);
        let last = " · out "@ + o;
        assert(c.subrange(c.len() - last.len(), c.len() as int) =~= last);
        if rep.tok_cached == rep.tok_in {
            lemma_whole_share(rep.tok_in as nat);
        }
    }
}

proof fn lemma_whole_share(n: nat)
    requires
        n > 0,
    ensures
        (n * 100) / n == 100,
        " ("@ + decimal(100) + "% cached) · out "@ == " (100% cached) · out "@,
{
    assert((n * 100) / n == 100) by (nonlinear_arith)
        requires
            n > 0,
    ;
    reveal_strlit(" (");
    reveal_strlit("% cached) · out ");
    reveal_strlit(" (100% cached) · out ");
    reveal_with_fuel(decimal, 4);
    assert(" ("@ + decimal(100) + "% cached) · out "@ =~= " (100% cached) · out "@);
}

proof fn lemma_cost(rep: ReportV, k: Seq<char>, l: Seq<char>)
    requires
        rep.tok_in > 0,
    ensures
        ({
            let i = "in "@ + fmt_k_of(rep.tok_in, k);
            let o = fmt_k_of(rep.tok_out, l);
            let share = decimal((rep.tok_cached as nat * 100) / rep.tok_in as nat);
            &&& rep.tok_cached > 0 ==> cost_text(rep, k, l) == i + " ("@ + share + "% cached)"@ + (
            " · out "@ + o)
            &&& rep.tok_cached > 0 ==> cost_text(rep, k, l) == i + (" ("@ + share
                + "% cached) · out "@) + o
            &&& rep.tok_cached == 0 ==> cost_text(rep, k, l) == i + (" · out "@ + o)
            &&& rep.tok_cached == 0 ==> cost_text(rep, k, l) == i + " · out "@ + o
        }),
{
    reveal_strlit("% cached)");
    reveal_strlit(" · out ");
    reveal_strlit("% cached) · out ");
    assert("% cached)"@ + " · out "@ =~= "% cached) · out "@);
    let i = "in "@ + fmt_k_of(rep.tok_in, k);
    let o = fmt_k_of(rep.tok_out, l);
    let share = decimal((rep.tok_cached as nat * 100) / rep.tok_in as nat);
    if rep.tok_cached > 0 {
        let c = i + " ("@ + share + "% cached) · out "@ + o;
        assert(cost_text(rep, k, l) =~= c);
        assert(c =~= i + " ("@ + share + ("% cached)"@ + " · out "@) + o);
        assert(c =~= i + " ("@ + share + "% cached)"@ + (" · out "@ + o));
        assert(c =~= i + (" ("@ + share + "% cached) · out "@) + o);
    } else {
        assert(cost_text(rep, k, l) =~= i + " · out "@ + o);
        assert(i + " · out "@ + o =~= i + (" · out "@ + o));
    }
}

/// The report is one line: turns, commands, seconds, tokens, and the seals where there
/// were any.
pub proof fn the_report_is_one_line(rep: ReportV, seconds: Seq<char>, k: Seq<char>, l: Seq<char>)
    ensures
        ({
            let start = counted_text(rep.turns as nat, " turn"@) + " · "@ + counted_text(
                rep.commands as nat,
                " cmd"@,
            ) + " · "@ + seconds + "s · "@ + cost_text(rep, k, l);
            &&& rep.seals == 0 ==> report_text(rep, seconds, k, l) == start
            &&& rep.seals > 0 ==> report_text(rep, seconds, k, l) == start + " · "@ + counted_text(
                rep.seals as nat,
                " seal"@,
            )
        }),
{
    reveal_strlit("");
    let start = counted_text(rep.turns as nat, " turn"@) + " · "@ + counted_text(
        rep.commands as nat,
        " cmd"@,
    ) + " · "@ + seconds + "s · "@ + cost_text(rep, k, l);
    if rep.seals == 0 {
        assert(report_text(rep, seconds, k, l) =~= start);
    } else {
        assert(report_text(rep, seconds, k, l) =~= start + " · "@ + counted_text(
            rep.seals as nat,
            " seal"@,
        ));
    }
}

/// A run that closes is over and has a final message: its own, or that it ran out of
/// turns. The leader tells it as its last event, after the report; a subagent tells
/// neither.
pub proof fn a_closed_run_has_a_message(
    r: RunV,
    set: Setup,
    back: Seq<Option<ReportV>>,
    wall_ms: u128,
    seconds: Seq<char>,
    k_in: Seq<char>,
    k_out: Seq<char>,
)
    ensures
        ({
            let turn = crate::text::held_sum(
                set.base as int,
                r.rep.turns as int,
                u32::MAX as int,
            ) as u32;
            let home = harvested(RunV { desk: DeskV { turn, ..r.desk }, ..r }, back, true);
            let c = closed_run(r, set, back, wall_ms, seconds, k_in, k_out);
            &&& c.phase == Phase::Over
            &&& c.rep.wall_ms == wall_ms
            &&& home.rep.final_msg.len() > 0 ==> c.rep.final_msg == home.rep.final_msg
            &&& home.rep.final_msg.len() == 0 ==> c.rep.final_msg == "(max turns reached)"@
            &&& home.desk.log.depth == 0 ==> {
                let n = home.desk.log.events.len();
                &&& c.desk.log.events.len() == n + 2
                &&& c.desk.log.events[n + 1int] == EvV::Done(c.rep.final_msg)
                &&& c.desk.log.events[n as int] is Report
                &&& c.desk.log.events.take(n as int) == home.desk.log.events
            }
            &&& home.desk.log.depth > 0 ==> c.desk.log == home.desk.log
        }),
{
    let turn = crate::text::held_sum(set.base as int, r.rep.turns as int, u32::MAX as int) as u32;
    let home = harvested(RunV { desk: DeskV { turn, ..r.desk }, ..r }, back, true);
    let c = closed_run(r, set, back, wall_ms, seconds, k_in, k_out);
    if home.desk.log.depth == 0 {
        assert(c.desk.log.events.take(home.desk.log.events.len() as int) =~= home.desk.log.events);
    }
}

} // verus!
