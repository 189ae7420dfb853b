//! The plan file: a JSON state machine the model writes and moves, and the
//! harness enforces.
//!
//!   { "goal": "auth", "steps": [
//!       {"id": "schema", "what": "user table", "status": "todo",
//!        "needs": [], "verify": "python tests.py -k schema"} ] }
//!
//! A step freshly marked "done" gets its verify command run: a failure reverts
//! it to "doing" with the failure injected. D is refused while steps are open
//! (descope with status "skip").

use crate::table::lookup;
use crate::table::put;
use crate::table::Table;
use crate::text;
use crate::text::begins;
use crate::text::joined;
use crate::text::opt_text;
use crate::text::texts;
use crate::tools;
use crate::tools::pruned;
use vstd::prelude::*;

verus! {

#[derive(Clone)]
pub struct Plan {
    pub goal: String,
    pub steps: Vec<Step>,
}

#[derive(Clone)]
pub struct Step {
    pub id: String,
    pub what: String,
    /// todo | doing | done | skip
    pub status: String,
    pub needs: Vec<String>,
    pub verify: Option<String>,
}

/// What a step says.
#[verifier::ext_equal]
pub struct StepV {
    pub id: Seq<char>,
    pub what: Seq<char>,
    pub status: Seq<char>,
    pub needs: Seq<Seq<char>>,
    pub verify: Option<Seq<char>>,
}

/// What a plan says.
#[verifier::ext_equal]
pub struct PlanV {
    pub goal: Seq<char>,
    pub steps: Seq<StepV>,
}

impl View for Step {
    type V = StepV;

    open spec fn view(&self) -> StepV {
        StepV {
            id: self.id@,
            what: self.what@,
            status: self.status@,
            needs: texts(self.needs@),
            verify: opt_text(self.verify),
        }
    }
}

impl View for Plan {
    type V = PlanV;

    open spec fn view(&self) -> PlanV {
        PlanV { goal: self.goal@, steps: self.steps@.map_values(|s: Step| s@) }
    }
}

// ---------------------------------------------------------------------------
// Forgiving commas
// ---------------------------------------------------------------------------

/// A text read so far: what is kept of it, whether it ends inside a string,
/// and whether the next character of that string is escaped.
#[verifier::ext_equal]
pub struct CommaV {
    pub out: Seq<char>,
    pub in_str: bool,
    pub esc: bool,
}

/// `s` without the white space at its end, and without the one comma before it.
pub open spec fn without_comma(s: Seq<char>) -> Seq<char> {
    let t = text::trimmed_end(s);
    if t.len() > 0 && t.last() == ',' {
        t.drop_last()
    } else {
        t
    }
}

/// The state after one more character.
pub open spec fn comma_step(st: CommaV, c: char) -> CommaV {
    if st.in_str {
        if st.esc {
            CommaV { out: st.out.push(c), esc: false, ..st }
        } else if c == '\\' {
            CommaV { out: st.out.push(c), esc: true, ..st }
        } else {
            CommaV { out: st.out.push(c), in_str: c != '"', ..st }
        }
    } else if c == '}' || c == ']' {
        CommaV { out: without_comma(st.out).push(c), ..st }
    } else {
        CommaV { out: st.out.push(c), in_str: c == '"', ..st }
    }
}

/// The state after the characters of `s`.
pub open spec fn comma_run(st: CommaV, s: Seq<char>) -> CommaV
    decreases s.len(),
{
    if s.len() == 0 {
        st
    } else {
        comma_step(comma_run(st, s.drop_last()), s.last())
    }
}

/// `s` without the commas before closing brackets, outside strings.
pub open spec fn forgiven(s: Seq<char>) -> Seq<char> {
    comma_run(CommaV { out: Seq::empty(), in_str: false, esc: false }, s).out
}

/// Strips trailing commas before `}` / `]`, the most common JSON mistake weak
/// models make; refusing the whole plan over one is cruel. String-aware, so a
/// comma inside a text is never touched.
pub fn forgive_commas(t: &str) -> (r: String)
    ensures
        r@ == forgiven(t@),
{
    let v = text::chars_of(t);
    let mut out: Vec<char> = Vec::new();
    let mut in_str = false;
    let mut esc = false;
    let mut i: usize = 0;
    let ghost st0 = CommaV { out: Seq::empty(), in_str: false, esc: false };
    assert(t@.take(0) =~= Seq::<char>::empty());
    while i < v.len()
        invariant
            i <= v@.len(),
            v@ == t@,
            st0 == (CommaV { out: Seq::empty(), in_str: false, esc: false }),
            comma_run(st0, t@.take(i as int)) == (CommaV { out: out@, in_str, esc }),
        decreases v@.len() - i,
    {
        proof {
            assert(t@.take(i + 1).drop_last() =~= t@.take(i as int));
            assert(t@.take(i + 1).last() == t@[i as int]);
        }
        let c = v[i];
        let ghost was = out@;
        if in_str {
            out.push(c);
            if esc {
                esc = false;
            } else if c == '\\' {
                esc = true;
            } else if c == '"' {
                in_str = false;
            }
        } else if c == '}' || c == ']' {
            while out.len() > 0 && text::is_white_space(out[out.len() - 1])
                invariant
                    out@.len() <= was.len(),
                    out@ == was.take(out@.len() as int),
                    text::drop_space(was, was.len() as int) == text::drop_space(
                        was,
                        out@.len() as int,
                    ),
                decreases out@.len(),
            {
                let ghost k = out@.len();
                out.pop();
                assert(out@ =~= was.take(k - 1));
            }
            proof {
                assert(out@ =~= text::trimmed_end(was));
            }
            if out.len() > 0 && out[out.len() - 1] == ',' {
                out.pop();
            }
            proof {
                assert(out@ =~= without_comma(was));
            }
            out.push(c);
        } else {
            out.push(c);
            in_str = c == '"';
        }
        i = i + 1;
    }
    assert(t@.take(t@.len() as int) =~= t@);
    text::text_of(&out)
}

/// A string literal passes through untouched, commas, brackets and all.
pub proof fn strings_pass_through(st: CommaV, body: Seq<char>)
    requires
        !st.in_str,
        !st.esc,
        forall|i: int| 0 <= i < body.len() ==> body[i] != '"' && body[i] != '\\',
    ensures
        comma_run(st, seq!['"'] + body + seq!['"']) == (CommaV {
            out: st.out + seq!['"'] + body + seq!['"'],
            ..st
        }),
{
    let open = seq!['"'] + body;
    let whole = open + seq!['"'];
    lemma_inside_string(st, body);
    assert(whole.drop_last() =~= open);
    assert(comma_run(st, whole).out =~= st.out + seq!['"'] + body + seq!['"']);
}

proof fn lemma_inside_string(st: CommaV, body: Seq<char>)
    requires
        !st.in_str,
        !st.esc,
        forall|i: int| 0 <= i < body.len() ==> body[i] != '"' && body[i] != '\\',
    ensures
        comma_run(st, seq!['"'] + body) == (CommaV {
            out: st.out + seq!['"'] + body,
            in_str: true,
            esc: false,
        }),
    decreases body.len(),
{
    let s = seq!['"'] + body;
    if body.len() == 0 {
        assert(s.drop_last() =~= Seq::<char>::empty());
        assert(s.last() == '"');
        assert(comma_run(st, Seq::<char>::empty()) == st);
    } else {
        lemma_inside_string(st, body.drop_last());
        assert(s.drop_last() =~= seq!['"'] + body.drop_last());
        assert(s.last() == body.last());
    }
    assert(comma_run(st, s).out =~= st.out + seq!['"'] + body);
}

// ---------------------------------------------------------------------------
// Reading a plan
// ---------------------------------------------------------------------------

/// Whether a step still has to be worked on.
pub open spec fn is_open(s: StepV) -> bool {
    s.status == "todo"@ || s.status == "doing"@
}

/// Whether a step is out of the way of those that need it.
pub open spec fn is_closed(s: StepV) -> bool {
    s.status == "done"@ || s.status == "skip"@
}

/// The ids of the open steps among the first `n`.
pub open spec fn open_steps(steps: Seq<StepV>, n: int) -> Seq<Seq<char>>
    decreases n,
{
    if n <= 0 {
        Seq::empty()
    } else if is_open(steps[n - 1]) {
        open_steps(steps, n - 1).push(steps[n - 1].id)
    } else {
        open_steps(steps, n - 1)
    }
}

/// Whether some step `id` is not closed.
pub open spec fn blocks(steps: Seq<StepV>, id: Seq<char>) -> bool {
    exists|k: int| 0 <= k < steps.len() && (#[trigger] steps[k]).id == id && !is_closed(steps[k])
}

/// Those of the first `n` needs that still block.
pub open spec fn unmet(steps: Seq<StepV>, needs: Seq<Seq<char>>, n: int) -> Seq<Seq<char>>
    decreases n,
{
    if n <= 0 {
        Seq::empty()
    } else if blocks(steps, needs[n - 1]) {
        unmet(steps, needs, n - 1).push(needs[n - 1])
    } else {
        unmet(steps, needs, n - 1)
    }
}

/// All needs of a step that still block it.
pub open spec fn unmet_needs(steps: Seq<StepV>, s: StepV) -> Seq<Seq<char>> {
    unmet(steps, s.needs, s.needs.len() as int)
}

/// The mark of a status.
pub open spec fn mark_of(status: Seq<char>) -> Seq<char> {
    if status == "done"@ {
        "x"@
    } else if status == "doing"@ {
        ">"@
    } else if status == "skip"@ {
        "-"@
    } else {
        " "@
    }
}

/// One row of the compact view.
pub open spec fn step_row(steps: Seq<StepV>, s: StepV) -> Seq<char> {
    let what = if s.what.len() > 0 {
        " — "@ + s.what
    } else {
        ""@
    };
    let blocked = unmet_needs(steps, s);
    let note = if blocked.len() > 0 {
        " (blocked by: "@ + joined(blocked, ","@) + ")"@
    } else {
        ""@
    };
    "["@ + mark_of(s.status) + "] "@ + s.id + what + note + "\n"@
}

/// The first `n` rows of the compact view.
pub open spec fn step_rows(steps: Seq<StepV>, n: int) -> Seq<char>
    decreases n,
{
    if n <= 0 {
        Seq::empty()
    } else {
        step_rows(steps, n - 1) + step_row(steps, steps[n - 1])
    }
}

/// The one-glance view of a plan.
pub open spec fn compact_text(p: PlanV) -> Seq<char> {
    "## PLAN: "@ + p.goal + "\n"@ + step_rows(p.steps, p.steps.len() as int)
}

/// The statuses that a step can have.
pub open spec fn is_status(s: Seq<char>) -> bool {
    s == "todo"@ || s == "doing"@ || s == "done"@ || s == "skip"@
}

/// The first step from `i` on with the given id.
pub open spec fn step_at(steps: Seq<StepV>, id: Seq<char>, i: int) -> Option<int>
    decreases steps.len() - i,
{
    if 0 <= i < steps.len() {
        if steps[i].id == id {
            Some(i)
        } else {
            step_at(steps, id, i + 1)
        }
    } else {
        None
    }
}

/// The ids of all steps.
pub open spec fn step_ids(steps: Seq<StepV>) -> Seq<Seq<char>> {
    steps.map_values(|s: StepV| s.id)
}

/// A step with another status.
pub open spec fn with_status(steps: Seq<StepV>, i: int, status: Seq<char>) -> Seq<StepV> {
    steps.update(i, StepV { status, ..steps[i] })
}

impl Plan {
    /// A plan without a goal and without steps.
    pub fn empty() -> (r: Plan)
        ensures
            r@ == (PlanV { goal: ""@, steps: Seq::empty() }),
    {
        let r = Plan { goal: "".to_string(), steps: Vec::new() };
        assert(r@.steps =~= Seq::<StepV>::empty());
        r
    }

    /// The ids of the steps that are still open.
    pub fn open_ids(&self) -> (r: Vec<String>)
        ensures
            texts(r@) == open_steps(self@.steps, self@.steps.len() as int),
    {
        let mut r: Vec<String> = Vec::new();
        let mut i: usize = 0;
        assert(texts(r@) =~= Seq::<Seq<char>>::empty());
        while i < self.steps.len()
            invariant
                i <= self@.steps.len(),
                texts(r@) == open_steps(self@.steps, i as int),
            decreases self@.steps.len() - i,
        {
            let s = &self.steps[i];
            assert(self@.steps[i as int] == s@);
            if text::same(&s.status, "todo") || text::same(&s.status, "doing") {
                let id = s.id.clone();
                proof {
                    text::lemma_texts_push(r@, id);
                }
                r.push(id);
            }
            i = i + 1;
        }
        r
    }

    fn is_blocking(&self, id: &str) -> (r: bool)
        ensures
            r == blocks(self@.steps, id@),
    {
        let mut i: usize = 0;
        while i < self.steps.len()
            invariant
                i <= self@.steps.len(),
                forall|k: int|
                    0 <= k < i ==> !((#[trigger] self@.steps[k]).id == id@ && !is_closed(
                        self@.steps[k],
                    )),
            decreases self@.steps.len() - i,
        {
            let s = &self.steps[i];
            assert(self@.steps[i as int] == s@);
            if text::same(&s.id, id) && !text::same(&s.status, "done") && !text::same(
                &s.status,
                "skip",
            ) {
                return true;
            }
            i = i + 1;
        }
        false
    }

    fn blocked_by(&self, k: usize) -> (r: Vec<String>)
        requires
            k < self@.steps.len(),
        ensures
            texts(r@) == unmet_needs(self@.steps, self@.steps[k as int]),
    {
        let needs = &self.steps[k].needs;
        assert(self@.steps[k as int].needs == texts(needs@));
        let mut r: Vec<String> = Vec::new();
        let mut i: usize = 0;
        assert(texts(r@) =~= Seq::<Seq<char>>::empty());
        while i < needs.len()
            invariant
                i <= needs@.len(),
                texts(r@) == unmet(self@.steps, texts(needs@), i as int),
            decreases needs@.len() - i,
        {
            assert(texts(needs@)[i as int] == needs@[i as int]@);
            if self.is_blocking(&needs[i]) {
                let id = needs[i].clone();
                proof {
                    text::lemma_texts_push(r@, id);
                }
                r.push(id);
            }
            i = i + 1;
        }
        r
    }

    /// The always-visible one-glance view rendered into every prompt.
    pub fn compact(&self) -> (r: String)
        ensures
            r@ == compact_text(self@),
    {
        let mut out = "## PLAN: ".to_string();
        out.append(&self.goal);
        out.append("\n");
        let ghost head = out@;
        let mut i: usize = 0;
        assert(out@ =~= head + step_rows(self@.steps, 0));
        while i < self.steps.len()
            invariant
                i <= self@.steps.len(),
                out@ == head + step_rows(self@.steps, i as int),
            decreases self@.steps.len() - i,
        {
            let s = &self.steps[i];
            assert(self@.steps[i as int] == s@);
            let mut row = "[".to_string();
            let mark = if text::same(&s.status, "done") {
                "x"
            } else if text::same(&s.status, "doing") {
                ">"
            } else if text::same(&s.status, "skip") {
                "-"
            } else {
                " "
            };
            row.append(mark);
            row.append("] ");
            row.append(&s.id);
            let mut what = "".to_string();
            if !text::empty(&s.what) {
                what = " — ".to_string();
                what.append(&s.what);
            }
            row.append(&what);
            let blocked = self.blocked_by(i);
            assert(texts(blocked@).len() == blocked@.len());
            let mut note = "".to_string();
            if blocked.len() > 0 {
                note = " (blocked by: ".to_string();
                let ids = text::join(&blocked, ",");
                note.append(&ids);
                note.append(")");
            }
            row.append(&note);
            row.append("\n");
            out.append(&row);
            assert(out@ =~= head + step_rows(self@.steps, i + 1));
            i = i + 1;
        }
        out
    }

    fn ids(&self) -> (r: Vec<String>)
        ensures
            texts(r@) == step_ids(self@.steps),
    {
        let mut r: Vec<String> = Vec::new();
        let mut i: usize = 0;
        while i < self.steps.len()
            invariant
                i <= self@.steps.len(),
                texts(r@) == step_ids(self@.steps).take(i as int),
            decreases self@.steps.len() - i,
        {
            let id = self.steps[i].id.clone();
            proof {
                assert(self@.steps[i as int] == self.steps@[i as int]@);
                text::lemma_texts_push(r@, id);
                assert(step_ids(self@.steps).take(i + 1) =~= step_ids(self@.steps).take(
                    i as int,
                ).push(id@));
            }
            r.push(id);
            i = i + 1;
        }
        assert(step_ids(self@.steps).take(self@.steps.len() as int) =~= step_ids(self@.steps));
        r
    }

    fn put_status(&mut self, i: usize, status: String)
        requires
            i < old(self)@.steps.len(),
        ensures
            final(self)@ == (PlanV {
                steps: with_status(old(self)@.steps, i as int, status@),
                ..old(self)@
            }),
    {
        let ghost before = self@;
        self.steps[i].status = status;
        assert(self@.steps =~= with_status(before.steps, i as int, status@));
    }

    /// Moves one step to another status. An unknown step is answered with the
    /// ids there are, an unknown status with the ones there are.
    pub fn set_status(&mut self, id: &str, status: &str) -> (r: Result<(), String>)
        ensures
            match step_at(old(self)@.steps, id@, 0) {
                None => {
                    &&& final(self)@ == old(self)@
                    &&& r matches Err(e) && e@ == "no step '"@ + id@ + "' — the plan has: "@ + joined(
                        step_ids(old(self)@.steps),
                        ", "@,
                    )
                },
                Some(i) => if is_status(status@) {
                    &&& r is Ok
                    &&& final(self)@ == (PlanV {
                        steps: with_status(old(self)@.steps, i, status@),
                        ..old(self)@
                    })
                } else {
                    &&& final(self)@ == old(self)@
                    &&& r matches Err(e) && e@ == "bad status '"@ + status@
                        + "' — use todo, doing, done or skip"@
                },
            },
    {
        let mut i: usize = 0;
        while i < self.steps.len()
            invariant
                i <= self@.steps.len(),
                self@ == old(self)@,
                step_at(self@.steps, id@, 0) == step_at(self@.steps, id@, i as int),
            decreases self@.steps.len() - i,
        {
            assert(self@.steps[i as int] == self.steps@[i as int]@);
            if text::same(&self.steps[i].id, id) {
                if text::same(status, "todo") || text::same(status, "doing") || text::same(
                    status,
                    "done",
                ) || text::same(status, "skip") {
                    self.put_status(i, status.to_owned());
                    return Ok(());
                }
                let mut e = "bad status '".to_string();
                e.append(status);
                e.append("' — use todo, doing, done or skip");
                return Err(e);
            }
            i = i + 1;
        }
        let mut e = "no step '".to_string();
        e.append(id);
        e.append("' — the plan has: ");
        let have = text::join(&self.ids(), ", ");
        e.append(&have);
        Err(e)
    }
}

// ---------------------------------------------------------------------------
// The tick
// ---------------------------------------------------------------------------

/// One pass over a plan, between two turns.
pub struct PlanTick {
    pub plan: Plan,
    /// The next step to look at.
    pub at: usize,
    /// Whether a status was changed, so that the plan has to be saved.
    pub dirty: bool,
    /// The steps whose verify failed.
    pub fails: Vec<String>,
    /// What the model has to be told, in order.
    pub notes: Vec<String>,
}

/// The state of a pass.
#[verifier::ext_equal]
pub struct TickV {
    pub plan: PlanV,
    pub at: int,
    pub dirty: bool,
    pub fails: Seq<Seq<char>>,
    pub notes: Seq<Seq<char>>,
}

impl View for PlanTick {
    type V = TickV;

    open spec fn view(&self) -> TickV {
        TickV {
            plan: self.plan@,
            at: self.at as int,
            dirty: self.dirty,
            fails: texts(self.fails@),
            notes: texts(self.notes@),
        }
    }
}

/// The statuses that were last seen, by step id.
pub type SeenV = Seq<(Seq<char>, String)>;

/// The status a step had when it was last seen; a new step was "todo".
pub open spec fn last_status(seen: SeenV, id: Seq<char>) -> Seq<char> {
    match lookup(seen, id) {
        Some(s) => s@,
        None => "todo"@,
    }
}

/// What is said when a step is started.
pub open spec fn kickoff_note(id: Seq<char>) -> Seq<char> {
    "(step '"@ + id
        + "' started — protocol: 1. RESEARCH the code it touches (O/G/R), 2. state your approach in ONE S line, 3. implement, 4. its verify decides done)"@
}

/// What is said when a step is marked done while steps it needs are open.
pub open spec fn blocked_note(id: Seq<char>, open: Seq<Seq<char>>) -> Seq<char> {
    "(plan step '"@ + id + "' marked done but it is BLOCKED by open step"@ + (if open.len() == 1 {
        ""@
    } else {
        "s"@
    }) + ": "@ + joined(open, ", "@) + " — finish those first)"@
}

/// What is said when a step's verify fails.
pub open spec fn failed_note(id: Seq<char>, out: Seq<char>) -> Seq<char> {
    "(plan step '"@ + id + "' marked done but its verify FAILED — reverted to doing)\n"@ + pruned(
        "first_failure"@,
        out,
    )
}

/// The pass with step `at` taken back to "doing".
pub open spec fn reverted(t: TickV) -> TickV {
    TickV {
        plan: PlanV { steps: with_status(t.plan.steps, t.at, "doing"@), ..t.plan },
        dirty: true,
        ..t
    }
}

/// The pass up to the next verify command that has to run, or to the end.
/// A step that enters "doing" gets the kickoff note. A step freshly marked
/// done is taken back while a step it needs is open; with no such step its
/// verify command decides.
pub open spec fn tick_on(t: TickV, seen: SeenV) -> (TickV, Option<Seq<char>>)
    decreases t.plan.steps.len() - t.at,
{
    if 0 <= t.at < t.plan.steps.len() {
        let s = t.plan.steps[t.at];
        let prev = last_status(seen, s.id);
        let t1 = if s.status == "doing"@ && prev == "todo"@ {
            TickV { notes: t.notes.push(kickoff_note(s.id)), ..t }
        } else {
            t
        };
        if s.status == "done"@ && prev != "done"@ {
            let open = unmet_needs(t.plan.steps, s);
            if open.len() > 0 {
                let back = reverted(t1);
                tick_on(
                    TickV { notes: t1.notes.push(blocked_note(s.id, open)), at: t.at + 1, ..back },
                    seen,
                )
            } else if s.verify is Some {
                (t1, s.verify)
            } else {
                tick_on(TickV { at: t.at + 1, ..t1 }, seen)
            }
        } else {
            tick_on(TickV { at: t.at + 1, ..t1 }, seen)
        }
    } else {
        (t, None)
    }
}

/// The pass after the verify command of step `at` ran with the output `out`.
pub open spec fn tick_verified(t: TickV, out: Seq<char>) -> TickV {
    if begins(out, "ok"@) {
        TickV { at: t.at + 1, ..t }
    } else {
        let id = t.plan.steps[t.at].id;
        TickV {
            fails: t.fails.push(id),
            notes: t.notes.push(failed_note(id, out)),
            at: t.at + 1,
            ..reverted(t)
        }
    }
}

/// The statuses seen after the first `n` steps; of two steps with one id the
/// later counts.
pub open spec fn seen_after(steps: Seq<Step>, n: int) -> SeenV
    decreases n,
{
    if n <= 0 {
        Seq::empty()
    } else {
        put(seen_after(steps, n - 1), steps[n - 1].id@, steps[n - 1].status)
    }
}

impl PlanTick {
    pub fn new(plan: Plan) -> (r: PlanTick)
        ensures
            r@ == (TickV {
                plan: plan@,
                at: 0,
                dirty: false,
                fails: Seq::empty(),
                notes: Seq::empty(),
            }),
    {
        let r = PlanTick { plan, at: 0, dirty: false, fails: Vec::new(), notes: Vec::new() };
        assert(texts(r.fails@) =~= Seq::<Seq<char>>::empty());
        assert(texts(r.notes@) =~= Seq::<Seq<char>>::empty());
        r
    }

    fn note(&mut self, text: String)
        ensures
            final(self)@ == (TickV { notes: old(self)@.notes.push(text@), ..old(self)@ }),
    {
        proof {
            text::lemma_texts_push(self.notes@, text);
        }
        self.notes.push(text);
    }

    /// Goes on to the next verify command that has to run; `None` at the end.
    pub fn advance(&mut self, seen: &Table<String>) -> (r: Option<String>)
        ensures
            (final(self)@, opt_text(r)) == tick_on(old(self)@, seen@),
            r is Some ==> final(self).at < final(self)@.plan.steps.len(),
    {
        let ghost goal = tick_on(self@, seen@);
        while self.at < self.plan.steps.len()
            invariant
                goal == tick_on(self@, seen@),
                goal == tick_on(old(self)@, seen@),
            decreases self@.plan.steps.len() - self.at,
        {
            let at = self.at;
            assert(self@.plan.steps[at as int] == self.plan.steps@[at as int]@);
            let id = self.plan.steps[at].id.clone();
            let status = self.plan.steps[at].status.clone();
            let prev = match seen.get(&id) {
                Some(s) => s.clone(),
                None => "todo".to_string(),
            };
            assert(prev@ == last_status(seen@, id@));
            if text::same(&status, "doing") && text::same(&prev, "todo") {
                let mut n = "(step '".to_string();
                n.append(&id);
                n.append(
                    "' started — protocol: 1. RESEARCH the code it touches (O/G/R), 2. state your approach in ONE S line, 3. implement, 4. its verify decides done)",
                );
                self.note(n);
            }
            if text::same(&status, "done") && !text::same(&prev, "done") {
                let open = self.plan.blocked_by(at);
                assert(texts(open@).len() == open@.len());
                if open.len() > 0 {
                    self.plan.put_status(at, "doing".to_string());
                    self.dirty = true;
                    let mut n = "(plan step '".to_string();
                    n.append(&id);
                    n.append("' marked done but it is BLOCKED by open step");
                    n.append(
                        if open.len() == 1 {
                            ""
                        } else {
                            "s"
                        },
                    );
                    n.append(": ");
                    let ids = text::join(&open, ", ");
                    n.append(&ids);
                    n.append(" — finish those first)");
                    self.note(n);
                } else if let Some(v) = &self.plan.steps[at].verify {
                    return Some(v.clone());
                }
            }
            self.at = at + 1;
        }
        None
    }

    /// Takes in the output of the verify command of the step that the pass
    /// stopped at.
    pub fn verified(&mut self, out: &str)
        requires
            old(self).at < old(self)@.plan.steps.len(),
        ensures
            final(self)@ == tick_verified(old(self)@, out@),
    {
        let at = self.at;
        let n = self.plan.steps.len();
        assert(at < n);
        if !text::starts_with(out, "ok") {
            assert(self@.plan.steps[at as int] == self.plan.steps@[at as int]@);
            let id = self.plan.steps[at].id.clone();
            self.plan.put_status(at, "doing".to_string());
            self.dirty = true;
            let mut n = "(plan step '".to_string();
            n.append(&id);
            n.append("' marked done but its verify FAILED — reverted to doing)\n");
            let why = tools::prune("first_failure", out);
            n.append(&why);
            self.note(n);
            proof {
                text::lemma_texts_push(self.fails@, id);
            }
            self.fails.push(id);
        }
        self.at = at + 1;
    }

    /// The statuses to compare the next pass with.
    pub fn seen(&self) -> (r: Table<String>)
        ensures
            r.wf(),
            r@ == seen_after(self.plan.steps@, self.plan.steps@.len() as int),
    {
        let mut r: Table<String> = Table::new();
        let mut i: usize = 0;
        while i < self.plan.steps.len()
            invariant
                i <= self.plan.steps@.len(),
                r.wf(),
                r@ == seen_after(self.plan.steps@, i as int),
            decreases self.plan.steps@.len() - i,
        {
            r.insert(self.plan.steps[i].id.clone(), self.plan.steps[i].status.clone());
            i = i + 1;
        }
        r
    }
}

// ---------------------------------------------------------------------------
// Laws
// ---------------------------------------------------------------------------

/// Whether `b` is `a` with at most some steps taken back from "done" to
/// "doing".
pub open spec fn only_taken_back(a: PlanV, b: PlanV) -> bool {
    &&& a.goal == b.goal
    &&& a.steps.len() == b.steps.len()
    &&& forall|i: int|
        0 <= i < a.steps.len() ==> {
            ||| #[trigger] b.steps[i] == a.steps[i]
            ||| a.steps[i].status == "done"@ && b.steps[i] == (StepV {
                status: "doing"@,
                ..a.steps[i]
            })
        }
}

/// The harness never advances a plan: a pass changes nothing but statuses, and
/// those only from "done" back to "doing". It stops for a verify command only
/// at a step that was freshly marked done and has no open need.
pub proof fn a_pass_only_takes_back(t: TickV, seen: SeenV)
    requires
        0 <= t.at,
    ensures
        only_taken_back(t.plan, tick_on(t, seen).0.plan),
        tick_on(t, seen).0.fails == t.fails,
        tick_on(t, seen).1 matches Some(cmd) ==> {
            let (u, _) = tick_on(t, seen);
            let s = u.plan.steps[u.at];
            &&& t.at <= u.at < u.plan.steps.len()
            &&& s.status == "done"@
            &&& last_status(seen, s.id) != "done"@
            &&& unmet_needs(u.plan.steps, s).len() == 0
            &&& s.verify == Some(cmd)
        },
        tick_on(t, seen).1 is None ==> tick_on(t, seen).0.at >= t.plan.steps.len(),
    decreases t.plan.steps.len() - t.at,
{
    if t.at < t.plan.steps.len() {
        let s = t.plan.steps[t.at];
        let prev = last_status(seen, s.id);
        let t1 = if s.status == "doing"@ && prev == "todo"@ {
            TickV { notes: t.notes.push(kickoff_note(s.id)), ..t }
        } else {
            t
        };
        if s.status == "done"@ && prev != "done"@ {
            let open = unmet_needs(t.plan.steps, s);
            if open.len() > 0 {
                let back = reverted(t1);
                let next = TickV {
                    notes: t1.notes.push(blocked_note(s.id, open)),
                    at: t.at + 1,
                    ..back
                };
                a_pass_only_takes_back(next, seen);
                let end = tick_on(next, seen).0.plan;
                assert forall|i: int| 0 <= i < t.plan.steps.len() implies {
                    ||| #[trigger] end.steps[i] == t.plan.steps[i]
                    ||| t.plan.steps[i].status == "done"@ && end.steps[i] == (StepV {
                        status: "doing"@,
                        ..t.plan.steps[i]
                    })
                } by {
                    assert(only_taken_back(next.plan, end));
                    if i == t.at {
                        lemma_doing_is_not_done();
                    }
                }
            } else if s.verify is None {
                a_pass_only_takes_back(TickV { at: t.at + 1, ..t1 }, seen);
            }
        } else {
            a_pass_only_takes_back(TickV { at: t.at + 1, ..t1 }, seen);
        }
    }
}

proof fn lemma_doing_is_not_done()
    ensures
        "doing"@ != "done"@,
{
    reveal_strlit("doing");
    reveal_strlit("done");
    assert("doing"@.len() == 5);
    assert("done"@.len() == 4);
}

/// A step whose verify does not report success is taken back to "doing" and
/// reported; one that does report success stays done. Nothing else changes.
pub proof fn done_is_decided_by_verify(t: TickV, out: Seq<char>)
    requires
        0 <= t.at < t.plan.steps.len(),
        t.plan.steps[t.at].status == "done"@,
    ensures
        only_taken_back(t.plan, tick_verified(t, out).plan),
        (tick_verified(t, out).plan.steps[t.at].status == "done"@) == begins(out, "ok"@),
        !begins(out, "ok"@) ==> {
            &&& is_open(tick_verified(t, out).plan.steps[t.at])
            &&& tick_verified(t, out).fails.last() == t.plan.steps[t.at].id
            &&& tick_verified(t, out).dirty
        },
{
    lemma_doing_is_not_done();
}

/// A plan has open steps exactly when one of its steps is todo or doing.
pub proof fn open_means_todo_or_doing(steps: Seq<StepV>, n: int)
    requires
        0 <= n <= steps.len(),
    ensures
        open_steps(steps, n).len() == 0 <==> forall|i: int|
            0 <= i < n ==> !is_open(#[trigger] steps[i]),
    decreases n,
{
    if n > 0 {
        open_means_todo_or_doing(steps, n - 1);
        if is_open(steps[n - 1]) {
            assert(open_steps(steps, n).len() > 0);
        }
    }
}

proof fn lemma_unmet(steps: Seq<StepV>, needs: Seq<Seq<char>>, n: int, j: int)
    requires
        0 <= j < n <= needs.len(),
        blocks(steps, needs[j]),
    ensures
        unmet(steps, needs, n).contains(needs[j]),
    decreases n,
{
    let all = unmet(steps, needs, n);
    if j == n - 1 {
        assert(all[all.len() - 1] == needs[j]);
    } else {
        lemma_unmet(steps, needs, n - 1, j);
        let before = unmet(steps, needs, n - 1);
        let k = before.index_of(needs[j]);
        assert(all[k] == needs[j]);
    }
}

proof fn lemma_all_met(steps: Seq<StepV>, needs: Seq<Seq<char>>, n: int)
    requires
        0 <= n <= needs.len(),
        forall|j: int| 0 <= j < n ==> !blocks(steps, #[trigger] needs[j]),
    ensures
        unmet(steps, needs, n).len() == 0,
    decreases n,
{
    if n > 0 {
        lemma_all_met(steps, needs, n - 1);
    }
}

/// A step that is freshly marked done while a step that it needs is neither done
/// nor skipped is taken back to "doing", and the file has to be written. With all
/// its needs out of the way its own check decides: the pass stops for it. A step
/// without a check then stays done.
pub proof fn done_waits_for_its_needs(t: TickV, seen: SeenV, j: int, k: int)
    requires
        0 <= t.at < t.plan.steps.len(),
        t.plan.steps[t.at].status == "done"@,
        last_status(seen, t.plan.steps[t.at].id) != "done"@,
    ensures
        ({
            let s = t.plan.steps[t.at];
            &&& 0 <= j < s.needs.len() && 0 <= k < t.plan.steps.len() && t.plan.steps[k].id
                == s.needs[j] && t.plan.steps[k].status != "done"@ && t.plan.steps[k].status
                != "skip"@ ==> tick_on(t, seen).0.plan.steps[t.at] == (StepV {
                status: "doing"@,
                ..s
            })
            &&& (forall|a: int, b: int|
                0 <= a < s.needs.len() && 0 <= b < t.plan.steps.len()
                    && #[trigger] t.plan.steps[b].id == #[trigger] s.needs[a] ==> t.plan.steps[b].status
                    == "done"@ || t.plan.steps[b].status == "skip"@) ==> {
                &&& s.verify is Some ==> tick_on(t, seen).1 == s.verify && tick_on(t, seen).0.at
                    == t.at
                &&& s.verify is None ==> tick_on(t, seen) == tick_on(
                    TickV { at: t.at + 1, ..t },
                    seen,
                )
            }
        }),
{
    let s = t.plan.steps[t.at];
    lemma_doing_is_not_done();
    if 0 <= j < s.needs.len() && 0 <= k < t.plan.steps.len() && t.plan.steps[k].id == s.needs[j]
        && t.plan.steps[k].status != "done"@ && t.plan.steps[k].status != "skip"@ {
        assert(!is_closed(t.plan.steps[k]));
        assert(blocks(t.plan.steps, s.needs[j]));
        lemma_unmet(t.plan.steps, s.needs, s.needs.len() as int, j);
        let open = unmet_needs(t.plan.steps, s);
        assert(open.len() > 0);
        let next = TickV {
            notes: t.notes.push(blocked_note(s.id, open)),
            at: t.at + 1,
            ..reverted(t)
        };
        a_pass_only_takes_back(next, seen);
        assert(tick_on(t, seen) == tick_on(next, seen));
        let end = tick_on(next, seen).0.plan;
        assert(only_taken_back(next.plan, end));
        assert(end.steps[t.at] == next.plan.steps[t.at]);
    }
    if forall|a: int, b: int|
        0 <= a < s.needs.len() && 0 <= b < t.plan.steps.len() && #[trigger] t.plan.steps[b].id
            == #[trigger] s.needs[a] ==> t.plan.steps[b].status == "done"@
            || t.plan.steps[b].status == "skip"@ {
        assert forall|a: int| 0 <= a < s.needs.len() implies !blocks(
            t.plan.steps,
            #[trigger] s.needs[a],
        ) by {}
        lemma_all_met(t.plan.steps, s.needs, s.needs.len() as int);
    }
}

/// A step that goes from "todo" to "doing" is told its protocol, once; a step
/// whose status is as it was seen last is passed over.
pub proof fn only_changes_are_noticed(t: TickV, seen: SeenV)
    requires
        0 <= t.at < t.plan.steps.len(),
    ensures
        ({
            let s = t.plan.steps[t.at];
            let prev = last_status(seen, s.id);
            let next = TickV { at: t.at + 1, ..t };
            &&& s.status == prev ==> tick_on(t, seen) == tick_on(next, seen)
            &&& s.status == "todo"@ || s.status == "skip"@ ==> tick_on(t, seen) == tick_on(
                next,
                seen,
            )
            &&& s.status == "doing"@ && prev == "todo"@ ==> exists|note: Seq<char>|
                tick_on(t, seen) == #[trigger] tick_on(
                    TickV { notes: t.notes.push(note), ..next },
                    seen,
                ) && begins(note, "(step '"@ + s.id + "' started"@)
        }),
{
    let s = t.plan.steps[t.at];
    lemma_doing_is_not_done();
    reveal_strlit("todo");
    reveal_strlit("doing");
    reveal_strlit("done");
    reveal_strlit("skip");
    assert("todo"@[0] == 't' && "skip"@[0] == 's' && "done"@[0] == 'd' && "doing"@[0] == 'd');
    if s.status == "doing"@ && last_status(seen, s.id) == "todo"@ {
        reveal_strlit("' started");
        reveal_strlit(
            "' started — protocol: 1. RESEARCH the code it touches (O/G/R), 2. state your approach in ONE S line, 3. implement, 4. its verify decides done)",
        );
        let note = kickoff_note(s.id);
        let head = "(step '"@ + s.id + "' started"@;
        assert(note.subrange(0, head.len() as int) =~= head);
        assert(begins(note, head));
        let next = TickV { at: t.at + 1, ..t };
        assert(tick_on(t, seen) == tick_on(TickV { notes: t.notes.push(note), ..next }, seen));
    }
}

proof fn lemma_row_stands(steps: Seq<StepV>, n: int, i: int)
    requires
        0 <= i < n <= steps.len(),
    ensures
        exists|at: int| #[trigger]
            text::occurs_at(step_rows(steps, n), step_row(steps, steps[i]), at),
    decreases n,
{
    let row = step_row(steps, steps[i]);
    let all = step_rows(steps, n);
    let before = step_rows(steps, n - 1);
    if i == n - 1 {
        let at = before.len() as int;
        assert(all.subrange(at, at + row.len()) =~= row);
        assert(text::occurs_at(all, row, at));
    } else {
        lemma_row_stands(steps, n - 1, i);
        let at = choose|at: int| #[trigger] text::occurs_at(before, row, at);
        assert(all.subrange(at, at + row.len()) =~= before.subrange(at, at + row.len()));
        assert(text::occurs_at(all, row, at));
    }
}

/// The view of a plan shows every step with its mark: an x for done, an arrow for
/// doing, a dash for skip, nothing for todo.
pub proof fn the_view_shows_every_step(p: PlanV, i: int, mark: char, shown: Seq<char>)
    requires
        0 <= i < p.steps.len(),
        mark == (if p.steps[i].status == "done"@ {
            'x'
        } else if p.steps[i].status == "doing"@ {
            '>'
        } else if p.steps[i].status == "skip"@ {
            '-'
        } else {
            ' '
        }),
        shown == seq!['[', mark, ']', ' '] + p.steps[i].id,
    ensures
        begins(compact_text(p), "## PLAN: "@ + p.goal + "\n"@),
        exists|at: int| #[trigger] text::occurs_at(compact_text(p), shown, at),
{
    let s = p.steps[i];
    let all = compact_text(p);
    let head = "## PLAN: "@ + p.goal + "\n"@;
    assert(all.subrange(0, head.len() as int) =~= head);
    lemma_row_stands(p.steps, p.steps.len() as int, i);
    let rows = step_rows(p.steps, p.steps.len() as int);
    let row = step_row(p.steps, s);
    let at = choose|at: int| #[trigger] text::occurs_at(rows, row, at);
    reveal_strlit("[");
    reveal_strlit("] ");
    reveal_strlit("x");
    reveal_strlit(">");
    reveal_strlit("-");
    reveal_strlit(" ");
    assert(mark_of(s.status) =~= seq![mark]);
    let part = shown;
    assert(row.subrange(0, part.len() as int) =~= part);
    let from = head.len() + at;
    assert(all.subrange(from, from + part.len()) =~= rows.subrange(at, at + row.len()).subrange(
        0,
        part.len() as int,
    ));
    assert(text::occurs_at(all, part, from));
}

proof fn lemma_step_at(steps: Seq<StepV>, id: Seq<char>, i: int)
    requires
        0 <= i,
    ensures
        match step_at(steps, id, i) {
            Some(k) => i <= k < steps.len() && steps[k].id == id && forall|m: int|
                i <= m < k ==> (#[trigger] steps[m]).id != id,
            None => forall|m: int| i <= m < steps.len() ==> (#[trigger] steps[m]).id != id,
        },
    decreases steps.len() - i,
{
    if i < steps.len() && steps[i].id != id {
        lemma_step_at(steps, id, i + 1);
    }
}

/// Moving a step changes the status of the first step of that name, to the one
/// that was asked for, and nothing else of the plan; a name that no step has
/// moves nothing.
pub proof fn moving_a_step_moves_that_step(
    steps: Seq<StepV>,
    id: Seq<char>,
    status: Seq<char>,
    k: int,
)
    requires
        0 <= k < steps.len(),
    ensures
        match step_at(steps, id, 0) {
            Some(i) => {
                let now = with_status(steps, i, status);
                &&& 0 <= i < steps.len()
                &&& steps[i].id == id
                &&& now.len() == steps.len()
                &&& now[i].status == status
                &&& now[i] == (StepV { status, ..steps[i] })
                &&& k != i ==> now[k] == steps[k]
            },
            None => steps[k].id != id,
        },
        is_status(status) <==> status == "todo"@ || status == "doing"@ || status == "done"@
            || status == "skip"@,
{
    lemma_step_at(steps, id, 0);
}

/// A comma before a closing bracket is forgiven, with the white space around it;
/// without one the text stays as it is.
pub proof fn trailing_commas_are_forgiven(st: CommaV, closing: char)
    requires
        !st.in_str,
        !st.esc,
        closing == '}' || closing == ']',
        st.out.len() > 0,
        !text::is_space(st.out.last()),
        st.out.last() != ',',
    ensures
        comma_run(st, seq![',', closing]) == (CommaV { out: st.out.push(closing), ..st }),
        comma_run(st, seq![',', '\n', ' ', closing]) == (CommaV {
            out: st.out.push(closing),
            ..st
        }),
        comma_run(st, seq![closing]) == (CommaV { out: st.out.push(closing), ..st }),
        comma_run(st, seq![',', '1']) == (CommaV { out: st.out.push(',').push('1'), ..st }),
{
    let a = st.out;
    let b = a.push(',');
    let c = b.push('\n');
    let d = c.push(' ');
    text::lemma_trimmed_end(a);
    text::lemma_trimmed_end(b);
    text::lemma_trimmed_end(d);
    assert(b.drop_last() =~= a);
    assert(text::is_space('\n') && text::is_space(' '));
    let n = text::trimmed_end(d).len() as int;
    assert(d[d.len() - 1] == ' ');
    assert(d[d.len() - 2] == '\n');
    assert(d[a.len() as int] == ',');
    assert(n == b.len()) by {
        if n < b.len() {
            assert(text::is_space(d[a.len() as int]));
        }
        if n > b.len() {
            assert(text::trimmed_end(d).last() == d[n - 1]);
        }
    }
    assert(d.take(n) =~= b);
    reveal_with_fuel(comma_run, 5);
    let s1 = seq![',', closing];
    assert(s1.drop_last() =~= seq![',']);
    assert(seq![','].drop_last() =~= Seq::<char>::empty());
    let s2 = seq![',', '\n', ' ', closing];
    assert(s2.drop_last() =~= seq![',', '\n', ' ']);
    assert(seq![',', '\n', ' '].drop_last() =~= seq![',', '\n']);
    assert(seq![',', '\n'].drop_last() =~= seq![',']);
    let s3 = seq![closing];
    assert(s3.drop_last() =~= Seq::<char>::empty());
    let s4 = seq![',', '1'];
    assert(s4.drop_last() =~= seq![',']);
}

/// What the statuses mean: work is left while a step is to do or being done, and it
/// is out of the way once done or skipped.
pub proof fn statuses_are_open_or_closed(s: StepV)
    ensures
        s.status == "todo"@ || s.status == "doing"@ ==> is_open(s) && !is_closed(s),
        s.status == "done"@ || s.status == "skip"@ ==> is_closed(s) && !is_open(s),
        s.status != "todo"@ && s.status != "doing"@ ==> !is_open(s),
        s.status != "done"@ && s.status != "skip"@ ==> !is_closed(s),
        is_status(s.status) ==> is_open(s) || is_closed(s),
{
    reveal_strlit("todo");
    reveal_strlit("doing");
    reveal_strlit("done");
    reveal_strlit("skip");
    assert("todo"@[0] == 't' && "doing"@.len() == 5 && "done"@.len() == 4 && "done"@[0] == 'd'
        && "skip"@[0] == 's');
}

/// The open steps are those with work left, all of them.
pub proof fn every_open_step_is_listed(steps: Seq<StepV>, n: int, i: int)
    requires
        0 <= i < n <= steps.len(),
    ensures
        steps[i].status == "todo"@ || steps[i].status == "doing"@ ==> open_steps(steps, n).contains(
            steps[i].id,
        ),
        (forall|k: int|
            0 <= k < n ==> (#[trigger] steps[k]).status == "done"@ || steps[k].status == "skip"@)
            ==> open_steps(steps, n).len() == 0,
        open_steps(steps, n).len() <= n,
    decreases n,
{
    lemma_open_steps(steps, n);
    if steps[i].status == "todo"@ || steps[i].status == "doing"@ {
        lemma_open_step(steps, n, i);
    }
}

proof fn lemma_open_steps(steps: Seq<StepV>, n: int)
    requires
        0 <= n <= steps.len(),
    ensures
        (forall|k: int|
            0 <= k < n ==> (#[trigger] steps[k]).status == "done"@ || steps[k].status == "skip"@)
            ==> open_steps(steps, n).len() == 0,
        open_steps(steps, n).len() <= n,
    decreases n,
{
    if n > 0 {
        lemma_open_steps(steps, n - 1);
        statuses_are_open_or_closed(steps[n - 1]);
    }
}

proof fn lemma_open_step(steps: Seq<StepV>, n: int, i: int)
    requires
        0 <= i < n <= steps.len(),
        steps[i].status == "todo"@ || steps[i].status == "doing"@,
    ensures
        open_steps(steps, n).contains(steps[i].id),
    decreases n,
{
    let before = open_steps(steps, n - 1);
    let now = open_steps(steps, n);
    if i == n - 1 {
        assert(now[before.len() as int] == steps[i].id);
    } else {
        lemma_open_step(steps, n - 1, i);
        let k = choose|k: int| 0 <= k < before.len() && before[k] == steps[i].id;
        assert(now[k] == before[k]);
    }
}

/// A step whose check passes stays done; one whose check fails goes back to being
/// done, is counted as failed, and is noted with what the check said. Either way the
/// next step is looked at.
pub proof fn a_failed_check_takes_the_step_back(t: TickV, out: Seq<char>, k: int)
    requires
        0 <= t.at < t.plan.steps.len(),
        0 <= k < t.plan.steps.len(),
    ensures
        begins(out, "ok"@) ==> tick_verified(t, out) == (TickV { at: t.at + 1, ..t }),
        !begins(out, "ok"@) ==> {
            let after = tick_verified(t, out);
            &&& after.at == t.at + 1
            &&& after.dirty
            &&& after.plan.steps.len() == t.plan.steps.len()
            &&& after.plan.steps[t.at].status == "doing"@
            &&& after.plan.steps[t.at].id == t.plan.steps[t.at].id
            &&& k != t.at ==> after.plan.steps[k] == t.plan.steps[k]
            &&& after.fails == t.fails.push(t.plan.steps[t.at].id)
            &&& after.notes.len() == t.notes.len() + 1
            &&& text::holds(after.notes.last(), t.plan.steps[t.at].id)
            &&& text::ends(after.notes.last(), pruned("first_failure"@, out))
        },
{
    let id = t.plan.steps[t.at].id;
    let note = failed_note(id, out);
    text::found_where_it_first_stands(note, id, 0);
    let k0 = "(plan step '"@.len() as int;
    assert(note.skip(k0).take(id.len() as int) =~= id);
    let said = pruned("first_failure"@, out);
    assert(note.subrange(note.len() - said.len(), note.len() as int) =~= said);
}

/// The row of a step: its mark and name, what it is where that is said, and what
/// blocks it exactly where something does.
pub proof fn a_row_says_what_blocks_it(steps: Seq<StepV>, s: StepV)
    ensures
        ({
            let head = "["@ + mark_of(s.status) + "] "@ + s.id;
            let open = unmet_needs(steps, s);
            let note = " (blocked by: "@ + joined(open, ","@) + ")\n"@;
            &&& s.what.len() == 0 && open.len() == 0 ==> step_row(steps, s) == head + "\n"@
            &&& s.what.len() > 0 && open.len() == 0 ==> step_row(steps, s) == head + " — "@ + s.what
                + "\n"@
            &&& s.what.len() == 0 && open.len() > 0 ==> step_row(steps, s) == head + note
            &&& s.what.len() > 0 && open.len() > 0 ==> step_row(steps, s) == head + " — "@ + s.what
                + note
        }),
{
    reveal_strlit("");
    reveal_strlit(")");
    reveal_strlit("\n");
    reveal_strlit(")\n");
    assert(")"@ + "\n"@ =~= ")\n"@);
    let head = "["@ + mark_of(s.status) + "] "@ + s.id;
    let open = unmet_needs(steps, s);
    let note = " (blocked by: "@ + joined(open, ","@) + ")\n"@;
    assert(" (blocked by: "@ + joined(open, ","@) + ")"@ + "\n"@ =~= note);
    let what = if s.what.len() > 0 {
        " — "@ + s.what
    } else {
        ""@
    };
    if open.len() > 0 {
        assert(step_row(steps, s) =~= head + what + note);
    } else {
        assert(step_row(steps, s) =~= head + what + "\n"@);
    }
    assert(head + ""@ =~= head);
    assert(head + (" — "@ + s.what) =~= head + " — "@ + s.what);
}

/// A note on a blocked step names it and every step it waits for, in the singular for
/// one.
pub proof fn a_blocked_note_names_its_blockers(id: Seq<char>, open: Seq<Seq<char>>)
    ensures
        open.len() == 1 ==> blocked_note(id, open) == "(plan step '"@ + id
            + "' marked done but it is BLOCKED by open step: "@ + joined(open, ", "@)
            + " — finish those first)"@,
        open.len() > 1 ==> blocked_note(id, open) == "(plan step '"@ + id
            + "' marked done but it is BLOCKED by open steps: "@ + joined(open, ", "@)
            + " — finish those first)"@,
{
    reveal_strlit("");
    reveal_strlit("s");
    reveal_strlit(": ");
    reveal_strlit("' marked done but it is BLOCKED by open step");
    reveal_strlit("' marked done but it is BLOCKED by open step: ");
    reveal_strlit("' marked done but it is BLOCKED by open steps: ");
    let a = "' marked done but it is BLOCKED by open step"@;
    assert(a + ""@ + ": "@ =~= "' marked done but it is BLOCKED by open step: "@);
    assert(a + "s"@ + ": "@ =~= "' marked done but it is BLOCKED by open steps: "@);
    let p = "(plan step '"@ + id;
    let list = joined(open, ", "@);
    let e = " — finish those first)"@;
    assert(p + a + ""@ + ": "@ + list + e =~= p + (a + ""@ + ": "@) + list + e);
    assert(p + a + "s"@ + ": "@ + list + e =~= p + (a + "s"@ + ": "@) + list + e);
}

/// What was seen of a plan is the status of every step, under its name.
pub proof fn every_status_is_remembered(steps: Seq<Step>, n: int, i: int)
    requires
        0 <= i < n <= steps.len(),
        forall|k: int| i < k < n ==> (#[trigger] steps[k]).id@ != steps[i].id@,
    ensures
        lookup(seen_after(steps, n), steps[i].id@) == Some(steps[i].status),
    decreases n,
{
    lemma_seen_in_order(steps, n - 1);
    crate::table::put_sets_one_key(
        seen_after(steps, n - 1),
        steps[n - 1].id@,
        steps[n - 1].status,
    );
    if i < n - 1 {
        every_status_is_remembered(steps, n - 1, i);
    }
}

proof fn lemma_seen_in_order(steps: Seq<Step>, n: int)
    requires
        0 <= n <= steps.len(),
    ensures
        crate::table::in_order(crate::table::keys_in(seen_after(steps, n))),
    decreases n,
{
    if n > 0 {
        lemma_seen_in_order(steps, n - 1);
        crate::table::put_sets_one_key(
            seen_after(steps, n - 1),
            steps[n - 1].id@,
            steps[n - 1].status,
        );
    }
}

} // verus!
