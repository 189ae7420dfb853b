//! Turns the lossless ledger into the prompt document for a turn.
//!
//! working_set mode: everything is recomputed from scratch every turn: stale
//! reads superseded, duplicates pointered, old results folded, budget enforced
//! by dropping oldest result bodies. Maximum compression, no prefix stability
//! (for providers without a prefix cache).
//!
//! append mode: entries render verbatim; once the estimate exceeds the budget,
//! everything older than the seal point is folded exactly once and the fold is
//! then frozen (stored as an override), so the prefix stays stable for
//! provider-side prefix caches.

use crate::config::CtxCfg;
use crate::ledger;
use crate::ledger::estimate;
use crate::ledger::first_result;
use crate::ledger::sane_ratio;
use crate::ledger::EntryV;
use crate::ledger::Kind;
use crate::ledger::Ledger;
use crate::text;
use crate::text::decimal;
use crate::text::first_line;
use crate::text::lines_of;
use std::collections::HashMap;
use vstd::prelude::*;

verus! {

broadcast use vstd::std_specs::hash::group_hash_axioms;

/// Compaction re-arms only after this many new entries since the last seal;
/// otherwise a session whose recent entries alone bust the budget would
/// compact every turn without ever getting smaller.
pub const MIN_ENTRIES_BETWEEN_SEALS: usize = 8;

pub struct Renderer {
    sealed_upto: usize,
    overrides: HashMap<usize, String>,
    last_seal_len: usize,
}

/// What a renderer remembers between turns.
#[verifier::ext_equal]
pub struct RenderV {
    /// Entries before this one are sealed.
    pub sealed_upto: nat,
    /// The frozen forms of sealed entries; empty = hidden.
    pub overrides: Map<usize, Seq<char>>,
    /// How long the ledger was at the last seal.
    pub last_seal_len: nat,
}

pub open spec fn forms_of(m: Map<usize, String>) -> Map<usize, Seq<char>> {
    m.map_values(|s: String| s@)
}

impl View for Renderer {
    type V = RenderV;

    closed spec fn view(&self) -> RenderV {
        RenderV {
            sealed_upto: self.sealed_upto as nat,
            overrides: forms_of(self.overrides@),
            last_seal_len: self.last_seal_len as nat,
        }
    }
}

// ---------------------------------------------------------------------------
// Entries as text
// ---------------------------------------------------------------------------

/// How one entry reads.
pub open spec fn entry_text(kind: Kind, text: Seq<char>) -> Seq<char> {
    match kind {
        Kind::Task => "## TASK\n"@ + text + "\n\n## LOG\n"@,
        Kind::Action => "> "@ + text + "\n"@,
        Kind::Result => text + "\n"@,
        Kind::Pin => text + "\n"@,
        Kind::Final => "DONE: "@ + text + "\n"@,
    }
}

fn push_entry(out: &mut String, kind: Kind, text: &str)
    ensures
        final(out)@ == old(out)@ + entry_text(kind, text@),
{
    match kind {
        Kind::Task => {
            out.append("## TASK\n");
            out.append(text);
            out.append("\n\n## LOG\n");
        },
        Kind::Action => {
            out.append("> ");
            out.append(text);
            out.append("\n");
        },
        Kind::Result => {
            out.append(text);
            out.append("\n");
        },
        Kind::Pin => {
            out.append(text);
            out.append("\n");
        },
        Kind::Final => {
            out.append("DONE: ");
            out.append(text);
            out.append("\n");
        },
    }
    assert(out@ =~= old(out)@ + entry_text(kind, text@));
}

/// A result collapsed to its first line plus a size note.
pub open spec fn folded(text: Seq<char>) -> Seq<char> {
    let n = lines_of(text).len();
    if n <= 1 {
        first_line(text)
    } else {
        first_line(text) + " …("@ + decimal((n - 1) as nat) + " lines folded)"@
    }
}

/// Collapses a result to its first line plus a size note.
pub fn fold(text: &str) -> (r: String)
    ensures
        r@ == folded(text@),
{
    let (first, n) = text::line_count(text);
    if n <= 1 {
        first
    } else {
        let mut r = first;
        r.append(" …(");
        let count = text::dec((n - 1) as u64);
        r.append(&count);
        r.append(" lines folded)");
        r
    }
}

// ---------------------------------------------------------------------------
// Append mode
// ---------------------------------------------------------------------------

/// The text that stands for entry `i`.
pub open spec fn shown(ov: Map<usize, Seq<char>>, es: Seq<EntryV>, i: int) -> Seq<char> {
    if ov.contains_key(i as usize) {
        ov[i as usize]
    } else {
        es[i].text
    }
}

/// The estimate of what the first `n` entries take as they are shown.
pub open spec fn total_of(ov: Map<usize, Seq<char>>, es: Seq<EntryV>, cpt: int, n: int) -> int
    decreases n,
{
    if n <= 0 {
        0
    } else {
        total_of(ov, es, cpt, n - 1) + estimate(shown(ov, es, n - 1), cpt)
    }
}

/// Whether a seal at `threshold` tokens pays off: in append mode, enough new
/// entries since the last one, and more tokens than the threshold. The billed
/// size of the last request wins over the estimate where it is known.
pub open spec fn is_seal_due(
    st: RenderV,
    es: Seq<EntryV>,
    cfg: CtxCfg,
    threshold: int,
    billed: Option<usize>,
    cpt: int,
) -> bool {
    &&& cfg.mode@ == "append"@
    &&& es.len() >= st.last_seal_len + MIN_ENTRIES_BETWEEN_SEALS
    &&& (match billed {
        Some(r) => r as int,
        None => total_of(st.overrides, es, cpt, es.len() as int),
    }) > threshold
}

/// Whether a model seal hides the entry: everything but pins and tasks.
pub open spec fn sealable(e: EntryV) -> bool {
    e.kind != Kind::Pin && e.kind != Kind::Task
}

/// Whether entry `i` is the first that a seal hides.
pub open spec fn opens_seal(es: Seq<EntryV>, i: int) -> bool {
    &&& sealable(es[i])
    &&& forall|j: int| 0 <= j < i ==> !sealable(#[trigger] es[j])
}

/// Where the part that stays verbatim starts.
pub open spec fn keep_from(st: RenderV, n: int, keep_last: int) -> int {
    let from = if n > keep_last {
        n - keep_last
    } else {
        0
    };
    if from > st.sealed_upto {
        from
    } else {
        st.sealed_upto as int
    }
}

/// The overrides once everything sealable before `upto` is hidden behind one
/// summary, which stands where the first of it stood.
pub open spec fn sealed_forms(
    ov: Map<usize, Seq<char>>,
    es: Seq<EntryV>,
    upto: int,
    summary: Seq<char>,
) -> Map<usize, Seq<char>> {
    Map::new(
        |i: usize| ov.contains_key(i) || (i < upto && sealable(es[i as int])),
        |i: usize|
            if i < upto && sealable(es[i as int]) {
                if opens_seal(es, i as int) {
                    "[history compressed]\n"@ + summary
                } else {
                    Seq::empty()
                }
            } else {
                ov[i]
            },
    )
}

proof fn lemma_sealed_step(
    ov: Map<usize, Seq<char>>,
    es: Seq<EntryV>,
    i: usize,
    summary: Seq<char>,
)
    requires
        i < es.len(),
        i < usize::MAX,
    ensures
        sealed_forms(ov, es, i + 1, summary) == (if sealable(es[i as int]) {
            sealed_forms(ov, es, i as int, summary).insert(
                i,
                if opens_seal(es, i as int) {
                    "[history compressed]\n"@ + summary
                } else {
                    Seq::empty()
                },
            )
        } else {
            sealed_forms(ov, es, i as int, summary)
        }),
{
    let a = sealed_forms(ov, es, i as int, summary);
    let b = sealed_forms(ov, es, i + 1, summary);
    if sealable(es[i as int]) {
        assert(b =~= a.insert(i, b[i]));
    } else {
        assert(b =~= a);
    }
}

/// The state after a seal behind a summary.
pub open spec fn sealed(st: RenderV, es: Seq<EntryV>, keep_last: int, summary: Seq<char>) -> RenderV {
    let upto = keep_from(st, es.len() as int, keep_last);
    RenderV {
        sealed_upto: upto as nat,
        overrides: sealed_forms(st.overrides, es, upto, summary),
        last_seal_len: es.len(),
    }
}

/// The overrides once the results between two entries are folded.
pub open spec fn folded_forms(
    ov: Map<usize, Seq<char>>,
    es: Seq<EntryV>,
    from: int,
    upto: int,
) -> Map<usize, Seq<char>> {
    Map::new(
        |i: usize| ov.contains_key(i) || (from <= i < upto && es[i as int].kind == Kind::Result),
        |i: usize|
            if ov.contains_key(i) {
                ov[i]
            } else {
                folded(es[i as int].text)
            },
    )
}

proof fn lemma_folded_step(ov: Map<usize, Seq<char>>, es: Seq<EntryV>, from: int, i: usize)
    requires
        from <= i < es.len(),
        i < usize::MAX,
    ensures
        folded_forms(ov, es, from, i + 1) == (if es[i as int].kind == Kind::Result
            && !folded_forms(ov, es, from, i as int).contains_key(i) {
            folded_forms(ov, es, from, i as int).insert(i, folded(es[i as int].text))
        } else {
            folded_forms(ov, es, from, i as int)
        }),
{
    let a = folded_forms(ov, es, from, i as int);
    let b = folded_forms(ov, es, from, i + 1);
    if es[i as int].kind == Kind::Result && !a.contains_key(i) {
        assert(b =~= a.insert(i, folded(es[i as int].text)));
    } else {
        assert(b =~= a);
    }
}

proof fn lemma_forms_insert(m: Map<usize, String>, i: usize, s: String)
    ensures
        forms_of(m.insert(i, s)) == forms_of(m).insert(i, s@),
{
    assert(forms_of(m.insert(i, s)) =~= forms_of(m).insert(i, s@));
}

/// The state after the structural reseal: over budget, results older than the
/// kept tail are folded, once and for all.
pub open spec fn resealed(st: RenderV, es: Seq<EntryV>, cfg: CtxCfg, cpt: int) -> RenderV {
    if total_of(st.overrides, es, cpt, es.len() as int) > cfg.budget_tokens {
        let upto = keep_from(st, es.len() as int, cfg.compact_keep_last as int);
        RenderV {
            sealed_upto: upto as nat,
            overrides: folded_forms(st.overrides, es, st.sealed_upto as int, upto),
            ..st
        }
    } else {
        st
    }
}

/// How entry `i` reads in append mode; nothing where a seal hides it.
pub open spec fn piece(ov: Map<usize, Seq<char>>, es: Seq<EntryV>, i: int) -> Seq<char> {
    if ov.contains_key(i as usize) && ov[i as usize].len() == 0 {
        Seq::empty()
    } else {
        entry_text(es[i].kind, shown(ov, es, i))
    }
}

/// The document of the first `n` entries in append mode.
pub open spec fn document(ov: Map<usize, Seq<char>>, es: Seq<EntryV>, n: int) -> Seq<char>
    decreases n,
{
    if n <= 0 {
        Seq::empty()
    } else {
        document(ov, es, n - 1) + piece(ov, es, n - 1)
    }
}

// ---------------------------------------------------------------------------
// Working-set mode
// ---------------------------------------------------------------------------

/// The last result that reads the file `fid`.
pub open spec fn last_read(es: Seq<EntryV>, fid: u32) -> Option<int>
    decreases es.len(),
{
    if es.len() == 0 {
        None
    } else if es.last().kind == Kind::Result && es.last().file == Some(fid) {
        Some(es.len() - 1)
    } else {
        last_read(es.drop_last(), fid)
    }
}

/// The short form of entry `i`, if it has one: a read that a newer one of the
/// same file supersedes, a repetition of an earlier result, or a result that
/// is old enough to fold.
pub open spec fn short_form(es: Seq<EntryV>, cfg: CtxCfg, turn: u32, i: int) -> Option<Seq<char>> {
    let e = es[i];
    if e.kind != Kind::Result {
        None
    } else if e.file is Some {
        if last_read(es, e.file->0) != Some(i) {
            Some("(superseded by newer read of #"@ + decimal((e.file->0) as nat) + ")"@)
        } else {
            None
        }
    } else if first_result(es, e.hash) != Some(i) {
        Some("(= identical to an earlier result)"@)
    } else if e.turn + cfg.fold_after_turns < turn {
        Some(folded(e.text))
    } else {
        None
    }
}

/// The short forms of all entries.
pub open spec fn short_forms(es: Seq<EntryV>, cfg: CtxCfg, turn: u32) -> Seq<Option<Seq<char>>> {
    Seq::new(es.len(), |i: int| short_form(es, cfg, turn, i))
}

/// The text that stands for entry `i` under the given short forms.
pub open spec fn formed(es: Seq<EntryV>, forms: Seq<Option<Seq<char>>>, i: int) -> Seq<char> {
    match forms[i] {
        Some(t) => t,
        None => es[i].text,
    }
}

/// The estimate of what the first `n` entries take.
pub open spec fn formed_total(
    es: Seq<EntryV>,
    forms: Seq<Option<Seq<char>>>,
    cpt: int,
    n: int,
) -> int
    decreases n,
{
    if n <= 0 {
        0
    } else {
        formed_total(es, forms, cpt, n - 1) + estimate(formed(es, forms, n - 1), cpt)
    }
}

/// The forms once the oldest full results, from entry `i` on, are folded until
/// the total is within the budget.
pub open spec fn squeezed(
    es: Seq<EntryV>,
    forms: Seq<Option<Seq<char>>>,
    budget: int,
    cpt: int,
    i: int,
    total: int,
) -> Seq<Option<Seq<char>>>
    decreases es.len() - i,
{
    if i >= es.len() || total <= budget {
        forms
    } else if es[i].kind == Kind::Result && forms[i] is None {
        let f = folded(es[i].text);
        squeezed(
            es,
            forms.update(i, Some(f)),
            budget,
            cpt,
            i + 1,
            total - estimate(es[i].text, cpt) + estimate(f, cpt),
        )
    } else {
        squeezed(es, forms, budget, cpt, i + 1, total)
    }
}

/// The forms that a turn shows.
pub open spec fn final_forms(es: Seq<EntryV>, cfg: CtxCfg, turn: u32, cpt: int) -> Seq<
    Option<Seq<char>>,
> {
    let forms = short_forms(es, cfg, turn);
    squeezed(
        es,
        forms,
        cfg.budget_tokens as int,
        cpt,
        0,
        formed_total(es, forms, cpt, es.len() as int),
    )
}

/// The document of the first `n` entries under the given forms.
pub open spec fn formed_document(es: Seq<EntryV>, forms: Seq<Option<Seq<char>>>, n: int) -> Seq<char>
    decreases n,
{
    if n <= 0 {
        Seq::empty()
    } else {
        formed_document(es, forms, n - 1) + entry_text(es[n - 1].kind, formed(es, forms, n - 1))
    }
}

/// The state after rendering.
pub open spec fn rendered_state(st: RenderV, es: Seq<EntryV>, cfg: CtxCfg, cpt: int) -> RenderV {
    if cfg.mode@ == "append"@ {
        resealed(st, es, cfg, cpt)
    } else {
        st
    }
}

/// The document of a turn.
pub open spec fn rendered(
    st: RenderV,
    es: Seq<EntryV>,
    cfg: CtxCfg,
    turn: u32,
    cpt: int,
) -> Seq<char> {
    if cfg.mode@ == "append"@ {
        document(resealed(st, es, cfg, cpt).overrides, es, es.len() as int)
    } else {
        formed_document(es, final_forms(es, cfg, turn, cpt), es.len() as int)
    }
}

/// The text of an optional form, as the exec code holds it.
pub open spec fn opt_forms(v: Seq<Option<String>>) -> Seq<Option<Seq<char>>> {
    v.map_values(|o: Option<String>| text::opt_text(o))
}

impl Default for Renderer {
    fn default() -> (r: Self)
        ensures
            r@ == (RenderV { sealed_upto: 0, overrides: Map::empty(), last_seal_len: 0 }),
    {
        Renderer::new()
    }
}

impl Renderer {
    pub fn new() -> (r: Renderer)
        ensures
            r@ == (RenderV { sealed_upto: 0, overrides: Map::empty(), last_seal_len: 0 }),
    {
        let r = Renderer { sealed_upto: 0, overrides: HashMap::new(), last_seal_len: 0 };
        assert(r@.overrides =~= Map::empty());
        r
    }

    fn text_of<'a>(&'a self, ledger: &'a Ledger, i: usize) -> (r: &'a str)
        requires
            i < ledger@.len(),
        ensures
            r@ == shown(self@.overrides, ledger@, i as int),
    {
        match self.overrides.get(&i) {
            Some(s) => s.as_str(),
            None => ledger.entry(i).text.as_str(),
        }
    }

    fn total(&self, ledger: &Ledger, cpt_milli: usize) -> (n: u128)
        requires
            sane_ratio(cpt_milli as int),
        ensures
            n == total_of(self@.overrides, ledger@, cpt_milli as int, ledger@.len() as int),
    {
        let mut n: u128 = 0;
        let mut i: usize = 0;
        let len = ledger.len();
        while i < len
            invariant
                i <= len,
                len == ledger@.len(),
                sane_ratio(cpt_milli as int),
                n == total_of(self@.overrides, ledger@, cpt_milli as int, i as int),
                n <= i * usize::MAX,
            decreases len - i,
        {
            let t: usize = ledger::est_tokens(self.text_of(ledger, i), cpt_milli);
            proof {
                assert(i * usize::MAX + usize::MAX == (i + 1) * usize::MAX) by (nonlinear_arith);
                assert((i + 1) * usize::MAX <= u128::MAX) by (nonlinear_arith)
                    requires
                        i + 1 <= usize::MAX,
                        usize::MAX <= 0xffff_ffff_ffff_ffff,
                ;
            }
            n = n + t as u128;
            i = i + 1;
        }
        n
    }

    /// Would a seal at `threshold` tokens pay off right now? (Append mode,
    /// with hysteresis.) `billed` is the provider-reported prompt size of the
    /// last request and always wins over the estimate when available.
    pub fn seal_due(
        &self,
        ledger: &Ledger,
        cfg: &CtxCfg,
        threshold: usize,
        billed: Option<usize>,
        cpt_milli: usize,
    ) -> (r: bool)
        requires
            sane_ratio(cpt_milli as int),
        ensures
            r == is_seal_due(self@, ledger@, *cfg, threshold as int, billed, cpt_milli as int),
    {
        if !text::same(&cfg.mode, "append") {
            return false;
        }
        let len = ledger.len();
        if len < MIN_ENTRIES_BETWEEN_SEALS || len - MIN_ENTRIES_BETWEEN_SEALS < self.last_seal_len {
            return false;
        }
        match billed {
            Some(r) => r > threshold,
            None => self.total(ledger, cpt_milli) > threshold as u128,
        }
    }

    /// Seal history behind a model-written summary. Render-layer only: the
    /// ledger is never touched. Pins, tasks, and the last `keep_last` entries
    /// survive. The summary was written while seeing earlier ones, so it
    /// subsumes them: they are replaced instead of piling up.
    pub fn seal_summary(&mut self, ledger: &Ledger, keep_last: usize, summary: String)
        requires
            old(self)@.sealed_upto <= ledger@.len(),
        ensures
            final(self)@ == sealed(old(self)@, ledger@, keep_last as int, summary@),
    {
        let ghost st0 = self@;
        let n = ledger.len();
        let from: usize = if n > keep_last {
            n - keep_last
        } else {
            0
        };
        let upto: usize = if from > self.sealed_upto {
            from
        } else {
            self.sealed_upto
        };
        let mut block = "[history compressed]\n".to_string();
        block.append(&summary);
        let ghost es = ledger@;
        let mut placed = false;
        let mut i: usize = 0;
        while i < upto
            invariant
                i <= upto <= n,
                n == ledger@.len(),
                es == ledger@,
                upto == keep_from(st0, n as int, keep_last as int),
                block@ == "[history compressed]\n"@ + summary@,
                self@.overrides == sealed_forms(st0.overrides, es, i as int, summary@),
                placed == exists|j: int| 0 <= j < i && sealable(#[trigger] es[j]),
            decreases upto - i,
        {
            let kind = ledger.entry(i).kind;
            let ghost before = self@.overrides;
            if kind != Kind::Pin && kind != Kind::Task {
                let ghost was_placed = placed;
                let form = if placed {
                    String::new()
                } else {
                    block.clone()
                };
                placed = true;
                proof {
                    assert(sealable(es[i as int]));
                    assert(was_placed == !opens_seal(es, i as int));
                    lemma_forms_insert(self.overrides@, i, form);
                }
                self.overrides.insert(i, form);
            }
            proof {
                lemma_sealed_step(st0.overrides, es, i, summary@);
            }
            i = i + 1;
        }
        self.sealed_upto = upto;
        self.last_seal_len = n;
        proof {
            if upto == 0 {
                assert(self@.overrides =~= sealed_forms(st0.overrides, es, 0, summary@));
            }
        }
    }

    pub fn render(&mut self, ledger: &Ledger, cfg: &CtxCfg, turn: u32, cpt_milli: usize) -> (r: String)
        requires
            sane_ratio(cpt_milli as int),
            old(self)@.sealed_upto <= ledger@.len(),
            ledger.wf(),
        ensures
            r@ == rendered(old(self)@, ledger@, *cfg, turn, cpt_milli as int),
            final(self)@ == rendered_state(old(self)@, ledger@, *cfg, cpt_milli as int),
    {
        if text::same(&cfg.mode, "append") {
            self.render_append(ledger, cfg, cpt_milli)
        } else {
            render_working_set(ledger, cfg, turn, cpt_milli)
        }
    }

    fn render_append(&mut self, ledger: &Ledger, cfg: &CtxCfg, cpt_milli: usize) -> (r: String)
        requires
            sane_ratio(cpt_milli as int),
            old(self)@.sealed_upto <= ledger@.len(),
        ensures
            final(self)@ == resealed(old(self)@, ledger@, *cfg, cpt_milli as int),
            r@ == document(final(self)@.overrides, ledger@, ledger@.len() as int),
    {
        let ghost st0 = self@;
        let ghost es = ledger@;
        let n = ledger.len();
        if self.total(ledger, cpt_milli) > cfg.budget_tokens as u128 {
            let from: usize = if n > cfg.compact_keep_last {
                n - cfg.compact_keep_last
            } else {
                0
            };
            let start: usize = self.sealed_upto;
            let upto: usize = if from > start {
                from
            } else {
                start
            };
            let mut i: usize = start;
            assert(self@.overrides =~= folded_forms(st0.overrides, es, start as int, start as int));
            while i < upto
                invariant
                    start <= i <= upto <= n,
                    n == ledger@.len(),
                    es == ledger@,
                    self@.overrides == folded_forms(st0.overrides, es, start as int, i as int),
                    self@.last_seal_len == st0.last_seal_len,
                decreases upto - i,
            {
                let e = ledger.entry(i);
                if e.kind == Kind::Result && !self.overrides.contains_key(&i) {
                    let f = fold(&e.text);
                    proof {
                        lemma_forms_insert(self.overrides@, i, f);
                    }
                    self.overrides.insert(i, f);
                }
                proof {
                    lemma_folded_step(st0.overrides, es, start as int, i);
                }
                i = i + 1;
            }
            self.sealed_upto = upto;
        }
        let mut out = String::new();
        let mut i: usize = 0;
        while i < n
            invariant
                i <= n,
                n == ledger@.len(),
                out@ == document(self@.overrides, ledger@, i as int),
            decreases n - i,
        {
            let hidden = match self.overrides.get(&i) {
                Some(s) => text::empty(s),
                None => false,
            };
            if !hidden {
                push_entry(&mut out, ledger.entry(i).kind, self.text_of(ledger, i));
            }
            assert(out@ =~= document(self@.overrides, ledger@, i + 1));
            i = i + 1;
        }
        out
    }
}

/// The short form of every entry.
fn form_entries(ledger: &Ledger, cfg: &CtxCfg, turn: u32) -> (r: Vec<Option<String>>)
    requires
        ledger.wf(),
    ensures
        opt_forms(r@) == short_forms(ledger@, *cfg, turn),
{
    let ghost es = ledger@;
    let n = ledger.len();
    let mut last: HashMap<u32, usize> = HashMap::new();
    let mut first: HashMap<u64, usize> = HashMap::new();
    let mut i: usize = 0;
    assert(es.take(0) =~= Seq::<EntryV>::empty());
    while i < n
        invariant
            i <= n,
            n == es.len(),
            es == ledger@,
            forall|f: u32|
                #![trigger last@.contains_key(f)]
                match last_read(es.take(i as int), f) {
                    Some(k) => last@.contains_key(f) && last@[f] == k,
                    None => !last@.contains_key(f),
                },
            forall|h: u64|
                #![trigger first@.contains_key(h)]
                match first_result(es.take(i as int), h) {
                    Some(k) => first@.contains_key(h) && first@[h] == k,
                    None => !first@.contains_key(h),
                },
        decreases n - i,
    {
        proof {
            assert(es.take(i + 1).drop_last() =~= es.take(i as int));
            assert(es.take(i + 1).last() == es[i as int]);
        }
        let e = ledger.entry(i);
        let ghost last0 = last@;
        let ghost first0 = first@;
        if e.kind == Kind::Result {
            if let Some(f) = e.file {
                last.insert(f, i);
            }
            if !first.contains_key(&e.hash) {
                first.insert(e.hash, i);
            }
        }
        proof {
            assert forall|f: u32|
                #![trigger last@.contains_key(f)]
                match last_read(es.take(i + 1), f) {
                    Some(k) => last@.contains_key(f) && last@[f] == k,
                    None => !last@.contains_key(f),
                } by {
                assert(last0.contains_key(f) == (last_read(es.take(i as int), f) is Some));
            }
            assert forall|h: u64|
                #![trigger first@.contains_key(h)]
                match first_result(es.take(i + 1), h) {
                    Some(k) => first@.contains_key(h) && first@[h] == k,
                    None => !first@.contains_key(h),
                } by {
                assert(first0.contains_key(h) == (first_result(es.take(i as int), h) is Some));
                ledger::lemma_first_result(es.take(i as int), h);
            }
        }
        i = i + 1;
    }
    assert(es.take(n as int) =~= es);
    let mut r: Vec<Option<String>> = Vec::new();
    i = 0;
    while i < n
        invariant
            i <= n,
            n == es.len(),
            es == ledger@,
            forall|f: u32|
                #![trigger last@.contains_key(f)]
                match last_read(es, f) {
                    Some(k) => last@.contains_key(f) && last@[f] == k,
                    None => !last@.contains_key(f),
                },
            forall|h: u64|
                #![trigger first@.contains_key(h)]
                match first_result(es, h) {
                    Some(k) => first@.contains_key(h) && first@[h] == k,
                    None => !first@.contains_key(h),
                },
            opt_forms(r@) == short_forms(es, *cfg, turn).take(i as int),
        decreases n - i,
    {
        let e = ledger.entry(i);
        let mut form: Option<String> = None;
        if e.kind == Kind::Result {
            if let Some(f) = e.file {
                proof {
                    assert(last@.contains_key(f) == (last_read(es, f) is Some));
                }
                let latest = match last.get(&f) {
                    Some(k) => *k == i,
                    None => false,
                };
                if !latest {
                    let mut t = "(superseded by newer read of #".to_string();
                    let id = text::dec(f as u64);
                    t.append(&id);
                    t.append(")");
                    form = Some(t);
                }
            } else {
                let ghost h = e.hash;
                proof {
                    assert(first@.contains_key(h) == (first_result(es, h) is Some));
                }
                let is_first = match first.get(&e.hash) {
                    Some(k) => *k == i,
                    None => false,
                };
                if !is_first {
                    form = Some("(= identical to an earlier result)".to_string());
                } else if (e.turn as u64) + (cfg.fold_after_turns as u64) < turn as u64 {
                    form = Some(fold(&e.text));
                }
            }
        }
        let ghost r0 = r@;
        let ghost f0 = form;
        r.push(form);
        proof {
            assert(text::opt_text(f0) == short_form(es, *cfg, turn, i as int));
            assert(opt_forms(r@) =~= opt_forms(r0).push(text::opt_text(f0)));
            assert(short_forms(es, *cfg, turn).take(i + 1) =~= short_forms(es, *cfg, turn).take(
                i as int,
            ).push(short_form(es, *cfg, turn, i as int)));
        }
        i = i + 1;
    }
    assert(short_forms(es, *cfg, turn).take(n as int) =~= short_forms(es, *cfg, turn));
    r
}

fn form_of<'a>(forms: &'a Vec<Option<String>>, ledger: &'a Ledger, i: usize) -> (r: &'a str)
    requires
        i < ledger@.len(),
        forms@.len() == ledger@.len(),
    ensures
        r@ == formed(ledger@, opt_forms(forms@), i as int),
{
    match &forms[i] {
        Some(t) => t.as_str(),
        None => ledger.entry(i).text.as_str(),
    }
}

/// No single estimate is larger than this.
spec fn half_range() -> int {
    usize::MAX / 2 + 1
}

proof fn lemma_half_ranges_fit(k: int)
    requires
        0 <= k < 2 * usize::MAX,
    ensures
        k * half_range() + half_range() == (k + 1) * half_range(),
        0 <= (k + 1) * half_range() <= u128::MAX,
{
    let h = half_range();
    assert(k * h + h == (k + 1) * h) by (nonlinear_arith);
    assert(0 <= (k + 1) * h <= u128::MAX) by (nonlinear_arith)
        requires
            0 <= k,
            k + 1 <= 2 * 0xffff_ffff_ffff_ffff,
            0 <= h <= 0x8000_0000_0000_0000,
    ;
}

proof fn lemma_formed_total_bound(
    es: Seq<EntryV>,
    forms: Seq<Option<Seq<char>>>,
    cpt: int,
    n: int,
    i: int,
)
    requires
        0 <= i < n <= es.len(),
        forms.len() == es.len(),
        sane_ratio(cpt),
    ensures
        formed_total(es, forms, cpt, n) >= estimate(formed(es, forms, i), cpt),
        formed_total(es, forms, cpt, n - 1) >= 0,
    decreases n,
{
    lemma_formed_total_nonneg(es, forms, cpt, n - 1);
    lemma_estimate_positive(formed(es, forms, n - 1), cpt);
    if i < n - 1 {
        lemma_formed_total_bound(es, forms, cpt, n - 1, i);
    }
}

proof fn lemma_estimate_positive(s: Seq<char>, cpt: int)
    requires
        sane_ratio(cpt),
    ensures
        estimate(s, cpt) >= 1,
{
    let n = crate::text::byte_len(s) as int * 1000;
    assert(n / cpt >= 0) by (nonlinear_arith)
        requires
            n >= 0,
            cpt >= 2000,
    ;
}

proof fn lemma_formed_total_nonneg(
    es: Seq<EntryV>,
    forms: Seq<Option<Seq<char>>>,
    cpt: int,
    n: int,
)
    requires
        sane_ratio(cpt),
    ensures
        formed_total(es, forms, cpt, n) >= 0,
    decreases n,
{
    if n > 0 {
        lemma_formed_total_nonneg(es, forms, cpt, n - 1);
        lemma_estimate_positive(formed(es, forms, n - 1), cpt);
    }
}

proof fn lemma_formed_total_update(
    es: Seq<EntryV>,
    forms: Seq<Option<Seq<char>>>,
    cpt: int,
    n: int,
    i: int,
    t: Seq<char>,
)
    requires
        0 <= i < es.len(),
        0 <= n <= es.len(),
        forms.len() == es.len(),
    ensures
        formed_total(es, forms.update(i, Some(t)), cpt, n) == formed_total(es, forms, cpt, n) + (
        if i < n {
            estimate(t, cpt) - estimate(formed(es, forms, i), cpt)
        } else {
            0
        }),
    decreases n,
{
    if n > 0 {
        lemma_formed_total_update(es, forms, cpt, n - 1, i, t);
    }
}

fn render_working_set(ledger: &Ledger, cfg: &CtxCfg, turn: u32, cpt_milli: usize) -> (r: String)
    requires
        sane_ratio(cpt_milli as int),
        ledger.wf(),
    ensures
        r@ == formed_document(
            ledger@,
            final_forms(ledger@, *cfg, turn, cpt_milli as int),
            ledger@.len() as int,
        ),
{
    let ghost es = ledger@;
    let ghost cpt = cpt_milli as int;
    let n = ledger.len();
    let mut forms = form_entries(ledger, cfg, turn);
    let ghost forms0 = opt_forms(forms@);
    assert(forms0.len() == n);
    let mut total: u128 = 0;
    let mut i: usize = 0;
    while i < n
        invariant
            i <= n,
            n == ledger@.len(),
            es == ledger@,
            cpt == cpt_milli,
            sane_ratio(cpt),
            forms@.len() == n,
            forms0 == opt_forms(forms@),
            total == formed_total(es, forms0, cpt, i as int),
            total <= i * half_range(),
        decreases n - i,
    {
        let t: usize = ledger::est_tokens(form_of(&forms, ledger, i), cpt_milli);
        proof {
            lemma_half_ranges_fit(i as int);
        }
        total = total + t as u128;
        i = i + 1;
    }
    let budget: u128 = cfg.budget_tokens as u128;
    let ghost goal = squeezed(es, forms0, budget as int, cpt, 0, total as int);
    i = 0;
    while i < n && total > budget
        invariant
            i <= n,
            n == ledger@.len(),
            es == ledger@,
            cpt == cpt_milli,
            sane_ratio(cpt),
            forms@.len() == n,
            total == formed_total(es, opt_forms(forms@), cpt, n as int),
            total <= (n + i) * half_range(),
            goal == squeezed(es, opt_forms(forms@), budget as int, cpt, i as int, total as int),
        decreases n - i,
    {
        let e = ledger.entry(i);
        if e.kind == Kind::Result && forms[i].is_none() {
            let f = fold(&e.text);
            let ghost before = opt_forms(forms@);
            let less: u128 = ledger::est_tokens(&e.text, cpt_milli) as u128;
            let more: u128 = ledger::est_tokens(&f, cpt_milli) as u128;
            proof {
                lemma_formed_total_bound(es, before, cpt, n as int, i as int);
                lemma_formed_total_update(es, before, cpt, n as int, i as int, f@);
            }
            let ghost fv = f@;
            proof {
                lemma_half_ranges_fit(n + i);
            }
            total = total - less + more;
            forms.set(i, Some(f));
            proof {
                assert(opt_forms(forms@) =~= before.update(i as int, Some(fv)));
            }
        }
        proof {
            lemma_half_ranges_fit(n + i);
        }
        i = i + 1;
    }
    let mut out = String::new();
    i = 0;
    while i < n
        invariant
            i <= n,
            n == ledger@.len(),
            es == ledger@,
            forms@.len() == n,
            goal == opt_forms(forms@),
            out@ == formed_document(es, goal, i as int),
        decreases n - i,
    {
        push_entry(&mut out, ledger.entry(i).kind, form_of(&forms, ledger, i));
        i = i + 1;
    }
    out
}

// ---------------------------------------------------------------------------
// Laws
// ---------------------------------------------------------------------------

/// Overrides stand only before the seal point, and never for a pin or a task.
pub open spec fn faithful(st: RenderV, es: Seq<EntryV>) -> bool {
    &&& st.sealed_upto <= es.len()
    &&& forall|i: usize| #[trigger]
        st.overrides.contains_key(i) ==> i < st.sealed_upto && sealable(es[i as int])
}

/// A new renderer hides nothing.
pub proof fn new_renderer_is_faithful(es: Seq<EntryV>)
    ensures
        faithful(RenderV { sealed_upto: 0, overrides: Map::empty(), last_seal_len: 0 }, es),
{
}

/// No seal and no fold ever touches a pin or a task, whatever the budget, and
/// growth of the ledger does not either.
pub proof fn pins_and_tasks_always_survive(
    st: RenderV,
    es: Seq<EntryV>,
    cfg: CtxCfg,
    cpt: int,
    keep_last: int,
    summary: Seq<char>,
    more: Seq<EntryV>,
)
    requires
        faithful(st, es),
        0 <= keep_last,
    ensures
        faithful(sealed(st, es, keep_last, summary), es),
        faithful(resealed(st, es, cfg, cpt), es),
        faithful(st, es + more),
        forall|i: int|
            0 <= i < es.len() && es.len() <= usize::MAX && !sealable(#[trigger] es[i]) ==> piece(
                st.overrides,
                es,
                i,
            ) == entry_text(es[i].kind, es[i].text),
{
    assert forall|i: usize| #[trigger] st.overrides.contains_key(i) implies i < st.sealed_upto
        && sealable((es + more)[i as int]) by {
        assert((es + more)[i as int] == es[i as int]);
    }
    assert forall|i: usize| #[trigger]
        resealed(st, es, cfg, cpt).overrides.contains_key(i) implies i < resealed(
        st,
        es,
        cfg,
        cpt,
    ).sealed_upto && sealable(es[i as int]) by {
        assert(st.overrides.contains_key(i) || !st.overrides.contains_key(i));
    }
    assert forall|i: usize| #[trigger]
        sealed(st, es, keep_last, summary).overrides.contains_key(i) implies i < sealed(
        st,
        es,
        keep_last,
        summary,
    ).sealed_upto && sealable(es[i as int]) by {
        assert(st.overrides.contains_key(i) || !st.overrides.contains_key(i));
    }
    assert forall|i: int|
        0 <= i < es.len() && es.len() <= usize::MAX && !sealable(#[trigger] es[i]) implies piece(
        st.overrides,
        es,
        i,
    ) == entry_text(es[i].kind, es[i].text) by {
        assert(!st.overrides.contains_key(i as usize));
    }
}

/// A seal leaves the last `keep_last` entries as they were, but for entries
/// that an earlier seal already lies behind.
pub proof fn the_tail_survives_a_seal(
    st: RenderV,
    es: Seq<EntryV>,
    keep_last: int,
    summary: Seq<char>,
    i: int,
)
    requires
        faithful(st, es),
        es.len() <= usize::MAX,
        0 <= keep_last,
        0 <= i < es.len(),
        i >= es.len() - keep_last,
        i >= st.sealed_upto,
    ensures
        piece(sealed(st, es, keep_last, summary).overrides, es, i) == entry_text(
            es[i].kind,
            es[i].text,
        ),
{
    assert(!st.overrides.contains_key(i as usize));
}

proof fn lemma_document_same(
    ov: Map<usize, Seq<char>>,
    es: Seq<EntryV>,
    more: Seq<EntryV>,
    n: int,
)
    requires
        0 <= n <= es.len(),
        es.len() + more.len() <= usize::MAX,
    ensures
        document(ov, es + more, n) == document(ov, es, n),
    decreases n,
{
    if n > 0 {
        lemma_document_same(ov, es, more, n - 1);
        assert((es + more)[n - 1] == es[n - 1]);
    }
}

proof fn lemma_document_grows(ov: Map<usize, Seq<char>>, es: Seq<EntryV>, m: int, n: int)
    requires
        0 <= m <= n,
    ensures
        document(ov, es, m).is_prefix_of(document(ov, es, n)),
    decreases n,
{
    if m < n {
        lemma_document_grows(ov, es, m, n - 1);
        let a = document(ov, es, m);
        let b = document(ov, es, n - 1);
        let c = document(ov, es, n);
        assert(b.subrange(0, a.len() as int) == a);
        assert(c.subrange(0, a.len() as int) =~= b.subrange(0, a.len() as int));
    }
}

proof fn lemma_total_same(
    ov: Map<usize, Seq<char>>,
    es: Seq<EntryV>,
    more: Seq<EntryV>,
    cpt: int,
    n: int,
)
    requires
        0 <= n <= es.len(),
        es.len() + more.len() <= usize::MAX,
    ensures
        total_of(ov, es + more, cpt, n) == total_of(ov, es, cpt, n),
    decreases n,
{
    if n > 0 {
        lemma_total_same(ov, es, more, cpt, n - 1);
        assert((es + more)[n - 1] == es[n - 1]);
    }
}

proof fn lemma_total_grows(ov: Map<usize, Seq<char>>, es: Seq<EntryV>, cpt: int, m: int, n: int)
    requires
        sane_ratio(cpt),
        m <= n,
    ensures
        total_of(ov, es, cpt, m) <= total_of(ov, es, cpt, n),
    decreases n - m,
{
    if m < n {
        lemma_total_grows(ov, es, cpt, m, n - 1);
        if n > 0 {
            lemma_estimate_positive(shown(ov, es, n - 1), cpt);
        }
    }
}

/// Append mode is prefix-stable: while the ledger grows within the budget,
/// every document begins with the one before it.
pub proof fn append_mode_keeps_its_prefix(
    st: RenderV,
    es: Seq<EntryV>,
    more: Seq<EntryV>,
    cfg: CtxCfg,
    turn: u32,
    later: u32,
    cpt: int,
)
    requires
        cfg.mode@ == "append"@,
        sane_ratio(cpt),
        es.len() + more.len() <= usize::MAX,
        total_of(st.overrides, es + more, cpt, (es + more).len() as int) <= cfg.budget_tokens,
    ensures
        rendered_state(st, es, cfg, cpt) == st,
        rendered(st, es, cfg, turn, cpt).is_prefix_of(rendered(st, es + more, cfg, later, cpt)),
{
    let all = es + more;
    lemma_total_same(st.overrides, es, more, cpt, es.len() as int);
    lemma_total_grows(st.overrides, all, cpt, es.len() as int, all.len() as int);
    lemma_document_same(st.overrides, es, more, es.len() as int);
    lemma_document_grows(st.overrides, all, es.len() as int, all.len() as int);
}

/// A fold is frozen: rendering the same ledger again changes neither the state
/// nor one character of the document.
pub proof fn rendering_again_changes_nothing(
    st: RenderV,
    es: Seq<EntryV>,
    cfg: CtxCfg,
    turn: u32,
    cpt: int,
)
    ensures
        rendered_state(rendered_state(st, es, cfg, cpt), es, cfg, cpt) == rendered_state(
            st,
            es,
            cfg,
            cpt,
        ),
        rendered(rendered_state(st, es, cfg, cpt), es, cfg, turn, cpt) == rendered(
            st,
            es,
            cfg,
            turn,
            cpt,
        ),
{
    if cfg.mode@ == "append"@ {
        let once = resealed(st, es, cfg, cpt);
        let twice = resealed(once, es, cfg, cpt);
        assert(twice.overrides =~= once.overrides);
        assert(twice =~= once);
    }
}

/// After a seal none is due until enough entries have been added.
pub proof fn seals_keep_their_distance(
    st: RenderV,
    es: Seq<EntryV>,
    later: Seq<EntryV>,
    keep_last: int,
    summary: Seq<char>,
    cfg: CtxCfg,
    threshold: int,
    billed: Option<usize>,
    cpt: int,
)
    requires
        later.len() < es.len() + MIN_ENTRIES_BETWEEN_SEALS,
    ensures
        !is_seal_due(sealed(st, es, keep_last, summary), later, cfg, threshold, billed, cpt),
{
}

/// A later summary replaces an earlier one: nothing of the first seal is left.
pub proof fn a_new_seal_replaces_the_old(
    st: RenderV,
    es: Seq<EntryV>,
    more: Seq<EntryV>,
    keep_last: int,
    old_summary: Seq<char>,
    new_summary: Seq<char>,
)
    requires
        faithful(st, es),
        0 <= keep_last,
        es.len() + more.len() <= usize::MAX,
    ensures
        sealed(sealed(st, es, keep_last, old_summary), es + more, keep_last, new_summary).overrides
            == sealed(st, es + more, keep_last, new_summary).overrides,
{
    let all = es + more;
    let mid = sealed(st, es, keep_last, old_summary);
    let a = sealed(mid, all, keep_last, new_summary);
    let b = sealed(st, all, keep_last, new_summary);
    assert(keep_from(mid, all.len() as int, keep_last) == keep_from(
        st,
        all.len() as int,
        keep_last,
    ));
    let upto = keep_from(st, all.len() as int, keep_last);
    assert forall|i: usize| i < mid.sealed_upto implies es[i as int] == all[i as int] by {}
    assert(a.overrides =~= b.overrides);
}

/// The entries from `a` up to `b` as they stand in the ledger.
pub open spec fn verbatim(es: Seq<EntryV>, a: int, b: int) -> Seq<char>
    decreases b - a,
{
    if a >= b {
        Seq::empty()
    } else {
        verbatim(es, a, b - 1) + entry_text(es[b - 1].kind, es[b - 1].text)
    }
}

/// The pins and tasks among the entries from `a` up to `b`.
pub open spec fn lasting(es: Seq<EntryV>, a: int, b: int) -> Seq<char>
    decreases b - a,
{
    if a >= b {
        Seq::empty()
    } else if sealable(es[b - 1]) {
        lasting(es, a, b - 1)
    } else {
        lasting(es, a, b - 1) + entry_text(es[b - 1].kind, es[b - 1].text)
    }
}

/// A sealed history: what comes before the first hidden entry, the summary in
/// its place, the pins and tasks up to `upto`, and the rest in full.
pub open spec fn sealed_document(es: Seq<EntryV>, first: int, upto: int, summary: Seq<char>) -> Seq<
    char,
> {
    verbatim(es, 0, first) + entry_text(es[first].kind, "[history compressed]\n"@ + summary)
        + lasting(es, first + 1, upto) + verbatim(es, upto, es.len() as int)
}

proof fn lemma_sealed_document(
    st: RenderV,
    es: Seq<EntryV>,
    first: int,
    upto: int,
    summary: Seq<char>,
    n: int,
)
    requires
        faithful(st, es),
        es.len() <= usize::MAX,
        0 <= first < upto <= es.len(),
        st.sealed_upto <= upto,
        opens_seal(es, first),
        0 <= n <= es.len(),
    ensures
        document(sealed_forms(st.overrides, es, upto, summary), es, n) == (if n <= first {
            verbatim(es, 0, n)
        } else if n <= upto {
            verbatim(es, 0, first) + entry_text(
                es[first].kind,
                "[history compressed]\n"@ + summary,
            ) + lasting(es, first + 1, n)
        } else {
            verbatim(es, 0, first) + entry_text(
                es[first].kind,
                "[history compressed]\n"@ + summary,
            ) + lasting(es, first + 1, upto) + verbatim(es, upto, n)
        }),
    decreases n,
{
    let ov = sealed_forms(st.overrides, es, upto, summary);
    let head = verbatim(es, 0, first) + entry_text(
        es[first].kind,
        "[history compressed]\n"@ + summary,
    );
    if n > 0 {
        let i = n - 1;
        lemma_sealed_document(st, es, first, upto, summary, i);
        reveal_strlit("[history compressed]\n");
        assert(("[history compressed]\n"@ + summary).len() > 0);
        if i < first {
            assert(!sealable(es[i]));
            assert(!ov.contains_key(i as usize));
        } else if i == first {
            assert(ov.contains_key(i as usize));
            assert(ov[i as usize] == "[history compressed]\n"@ + summary);
            assert(head + lasting(es, first + 1, n) =~= head);
        } else if i < upto {
            if sealable(es[i]) {
                assert(!opens_seal(es, i)) by {
                    assert(sealable(es[first]));
                }
                assert(ov.contains_key(i as usize));
                assert(ov[i as usize] =~= Seq::<char>::empty());
                assert(document(ov, es, n) =~= document(ov, es, i));
            } else {
                assert(!ov.contains_key(i as usize));
                assert(head + lasting(es, first + 1, i) + entry_text(es[i].kind, es[i].text)
                    =~= head + lasting(es, first + 1, n));
            }
        } else {
            assert(!ov.contains_key(i as usize));
            let body = head + lasting(es, first + 1, upto);
            if i == upto {
                assert(body + verbatim(es, upto, i) =~= body);
            }
            assert(body + verbatim(es, upto, i) + entry_text(es[i].kind, es[i].text) =~= body
                + verbatim(es, upto, n));
        }
    } else {
        assert(document(ov, es, n) =~= verbatim(es, 0, n));
    }
}

/// A new briefing replaces the old one in the document: after a second seal it
/// holds the second summary once, in place of the first hidden entry, every pin
/// and task, and the kept tail in full. Nothing of the first summary is left:
/// the document does not depend on it.
pub proof fn a_new_briefing_replaces_the_old(
    st: RenderV,
    es: Seq<EntryV>,
    more: Seq<EntryV>,
    keep_last: int,
    old_summary: Seq<char>,
    new_summary: Seq<char>,
    first: int,
    cfg: CtxCfg,
    turn: u32,
    cpt: int,
)
    requires
        faithful(st, es),
        0 <= keep_last,
        es.len() + more.len() <= usize::MAX,
        0 <= first < keep_from(st, es.len() as int, keep_last),
        opens_seal(es, first),
        cfg.mode@ == "append"@,
        ({
            let now = sealed(
                sealed(st, es, keep_last, old_summary),
                es + more,
                keep_last,
                new_summary,
            );
            total_of(now.overrides, es + more, cpt, (es + more).len() as int) <= cfg.budget_tokens
        }),
    ensures
        ({
            let now = sealed(
                sealed(st, es, keep_last, old_summary),
                es + more,
                keep_last,
                new_summary,
            );
            &&& rendered(now, es + more, cfg, turn, cpt) == sealed_document(
                es + more,
                first,
                now.sealed_upto as int,
                new_summary,
            )
            &&& now.sealed_upto == keep_from(st, (es + more).len() as int, keep_last)
        }),
{
    let all = es + more;
    let mid = sealed(st, es, keep_last, old_summary);
    let upto = keep_from(mid, all.len() as int, keep_last);
    a_new_seal_replaces_the_old(st, es, more, keep_last, old_summary, new_summary);
    assert(upto == keep_from(st, all.len() as int, keep_last));
    assert(faithful(st, all)) by {
        assert forall|i: usize| #[trigger] st.overrides.contains_key(i) implies i < st.sealed_upto
            && sealable(all[i as int]) by {
            assert(all[i as int] == es[i as int]);
        }
    }
    assert(opens_seal(all, first)) by {
        assert(all[first] == es[first]);
        assert forall|j: int| 0 <= j < first implies !sealable(#[trigger] all[j]) by {
            assert(all[j] == es[j]);
        }
    }
    lemma_sealed_document(st, all, first, upto, new_summary, all.len() as int);
    let head = verbatim(all, 0, first) + entry_text(
        all[first].kind,
        "[history compressed]\n"@ + new_summary,
    ) + lasting(all, first + 1, upto);
    if upto == all.len() {
        assert(head + verbatim(all, upto, all.len() as int) =~= head);
    }
}

/// The first `n` pieces of a document, one after the other.
pub open spec fn run_of(ps: Seq<Seq<char>>, n: int) -> Seq<char>
    decreases n,
{
    if n <= 0 {
        Seq::empty()
    } else {
        run_of(ps, n - 1) + ps[n - 1]
    }
}

/// Whether a text stands somewhere in another.
pub open spec fn stands_in(s: Seq<char>, t: Seq<char>) -> bool {
    exists|m: int| #[trigger] text::occurs_at(s, t, m)
}

/// Whether a text stands in one of the pieces.
pub open spec fn in_a_piece(ps: Seq<Seq<char>>, t: Seq<char>) -> bool {
    exists|i: int| 0 <= i < ps.len() && stands_in(#[trigger] ps[i], t)
}

/// Whether a text falls apart at the end of the `i`-th piece: its first `j`
/// characters end what comes before, the others begin what follows.
pub open spec fn falls_apart(ps: Seq<Seq<char>>, t: Seq<char>, i: int, j: int) -> bool {
    let before = run_of(ps, i);
    let after = run_of(ps, ps.len() as int).skip(before.len() as int);
    0 < j < t.len() && text::ends(before, t.take(j)) && text::begins(after, t.skip(j))
}

/// Whether a text is put together by neighbours: it begins in one piece and ends
/// in a later one.
pub open spec fn straddles(ps: Seq<Seq<char>>, t: Seq<char>) -> bool {
    exists|i: int, j: int| 0 <= i <= ps.len() && #[trigger] falls_apart(ps, t, i, j)
}

proof fn lemma_run(ps: Seq<Seq<char>>, i: int, n: int)
    requires
        0 <= i <= n <= ps.len(),
    ensures
        run_of(ps, i).len() <= run_of(ps, n).len(),
        run_of(ps, n).take(run_of(ps, i).len() as int) == run_of(ps, i),
    decreases n - i,
{
    if i < n {
        lemma_run(ps, i, n - 1);
        assert(run_of(ps, n).take(run_of(ps, i).len() as int) =~= run_of(ps, n - 1).take(
            run_of(ps, i).len() as int,
        ));
    } else {
        assert(run_of(ps, n).take(run_of(ps, n).len() as int) =~= run_of(ps, n));
    }
}

proof fn lemma_piece_of(ps: Seq<Seq<char>>, n: int, m: int) -> (i: int)
    requires
        0 <= n <= ps.len(),
        0 <= m < run_of(ps, n).len(),
    ensures
        0 <= i < n,
        run_of(ps, i).len() <= m < run_of(ps, i + 1).len(),
    decreases n,
{
    if run_of(ps, n - 1).len() <= m {
        n - 1
    } else {
        lemma_piece_of(ps, n - 1, m)
    }
}

/// Where a text stands in a document, it stands in a piece or straddles.
proof fn lemma_where_it_stands(ps: Seq<Seq<char>>, t: Seq<char>, m: int) -> (i: int)
    requires
        t.len() > 0,
        text::occurs_at(run_of(ps, ps.len() as int), t, m),
    ensures
        0 <= i < ps.len(),
        run_of(ps, i).len() <= m < run_of(ps, i + 1).len(),
        text::occurs_at(ps[i], t, m - run_of(ps, i).len()) || falls_apart(
            ps,
            t,
            i + 1,
            run_of(ps, i + 1).len() - m,
        ),
{
    let n = ps.len() as int;
    let doc = run_of(ps, n);
    let i = lemma_piece_of(ps, n, m);
    lemma_run(ps, i, n);
    lemma_run(ps, i + 1, n);
    let from = run_of(ps, i).len() as int;
    let to = run_of(ps, i + 1).len() as int;
    let part = doc.subrange(m, m + t.len());
    assert(part == t);
    if m + t.len() <= to {
        assert forall|k: int| 0 <= k < t.len() implies #[trigger] t[k] == ps[i][m - from + k] by {
            assert(part[k] == doc[m + k]);
            assert(doc.take(to)[m + k] == doc[m + k]);
            assert(run_of(ps, i + 1)[m + k] == ps[i][m + k - from]);
        }
        assert(ps[i].subrange(m - from, m - from + t.len()) =~= t);
    } else {
        let j = to - m;
        let before = run_of(ps, i + 1);
        let after = doc.skip(to);
        assert(before.subrange(to - j, to) =~= t.take(j)) by {
            assert forall|k: int| 0 <= k < j implies before[to - j + k] == #[trigger] t[k] by {
                assert(part[k] == doc[m + k]);
                assert(doc.take(to)[m + k] == doc[m + k]);
            }
        }
        assert(after.subrange(0, t.len() - j) =~= t.skip(j)) by {
            assert forall|k: int| 0 <= k < t.len() - j implies after[k] == #[trigger] t.skip(j)[k] by {
                assert(part[j + k] == doc[m + j + k]);
            }
        }
    }
    i
}

/// A text stands in a document exactly where one of its pieces holds it, or
/// where neighbours put it together.
pub proof fn a_text_stands_in_a_piece_or_straddles(ps: Seq<Seq<char>>, t: Seq<char>)
    requires
        t.len() > 0,
    ensures
        stands_in(run_of(ps, ps.len() as int), t) <==> in_a_piece(ps, t) || straddles(ps, t),
{
    let n = ps.len() as int;
    let doc = run_of(ps, n);
    if stands_in(doc, t) {
        let m = choose|m: int| #[trigger] text::occurs_at(doc, t, m);
        let i = lemma_where_it_stands(ps, t, m);
        if text::occurs_at(ps[i], t, m - run_of(ps, i).len()) {
            assert(stands_in(ps[i], t));
        }
    }
    if in_a_piece(ps, t) {
        let i = choose|i: int| 0 <= i < n && stands_in(#[trigger] ps[i], t);
        let k = choose|k: int| #[trigger] text::occurs_at(ps[i], t, k);
        lemma_piece_in_run(ps, t, i, k);
    }
    if straddles(ps, t) {
        let (i, j) = choose|i: int, j: int| 0 <= i <= n && #[trigger] falls_apart(ps, t, i, j);
        lemma_straddler_stands(ps, t, i, j);
    }
}

proof fn lemma_straddler_stands(ps: Seq<Seq<char>>, t: Seq<char>, i: int, j: int)
    requires
        0 <= i <= ps.len(),
        falls_apart(ps, t, i, j),
    ensures
        text::occurs_at(run_of(ps, ps.len() as int), t, run_of(ps, i).len() - j),
{
    let doc = run_of(ps, ps.len() as int);
    lemma_run(ps, i, ps.len() as int);
    let before = run_of(ps, i);
    let b = before.len() as int;
    let after = doc.skip(b);
    let m = b - j;
    assert forall|k: int| 0 <= k < t.len() implies doc[m + k] == #[trigger] t[k] by {
        if k < j {
            assert(doc.take(b)[m + k] == before[m + k]);
            assert(before.subrange(b - j, b)[k] == t.take(j)[k]);
        } else {
            assert(after[k - j] == doc[m + k]);
            assert(after.subrange(0, t.len() - j)[k - j] == t.skip(j)[k - j]);
        }
    }
    assert(doc.subrange(m, m + t.len()) =~= t);
}

proof fn lemma_piece_in_run(ps: Seq<Seq<char>>, t: Seq<char>, i: int, k: int)
    requires
        0 <= i < ps.len(),
        text::occurs_at(ps[i], t, k),
    ensures
        text::occurs_at(run_of(ps, ps.len() as int), t, run_of(ps, i).len() + k),
{
    let n = ps.len() as int;
    let doc = run_of(ps, n);
    lemma_run(ps, i + 1, n);
    let from = run_of(ps, i).len() as int;
    let to = run_of(ps, i + 1).len() as int;
    assert forall|x: int| 0 <= x < t.len() implies doc[from + k + x] == #[trigger] t[x] by {
        assert(doc.take(to)[from + k + x] == doc[from + k + x]);
        assert(run_of(ps, i + 1)[from + k + x] == ps[i][k + x]);
        assert(ps[i].subrange(k, k + t.len())[x] == t[x]);
    }
    assert(doc.subrange(from + k, from + k + t.len()) =~= t);
}

/// Whether a piece is empty or ends with a line.
pub open spec fn ends_a_line(p: Seq<char>) -> bool {
    p.len() == 0 || p.last() == '\n'
}

proof fn lemma_run_ends_a_line(ps: Seq<Seq<char>>, n: int)
    requires
        0 <= n <= ps.len(),
        forall|i: int| 0 <= i < ps.len() ==> ends_a_line(#[trigger] ps[i]),
    ensures
        ends_a_line(run_of(ps, n)),
    decreases n,
{
    if n > 0 {
        lemma_run_ends_a_line(ps, n - 1);
        if ps[n - 1].len() == 0 {
            assert(run_of(ps, n) =~= run_of(ps, n - 1));
        }
    }
}

/// Where a text falls apart between pieces that end their lines, a line of it
/// ends.
proof fn lemma_apart_at_a_line_end(ps: Seq<Seq<char>>, t: Seq<char>, i: int, j: int)
    requires
        0 <= i <= ps.len(),
        forall|k: int| 0 <= k < ps.len() ==> ends_a_line(#[trigger] ps[k]),
        falls_apart(ps, t, i, j),
    ensures
        t[j - 1] == '\n',
{
    lemma_run_ends_a_line(ps, i);
    let before = run_of(ps, i);
    let b = before.len() as int;
    assert(before.subrange(b - j, b)[j - 1] == t.take(j)[j - 1]);
}

/// A text of one line never straddles pieces that end their lines.
pub proof fn one_line_never_straddles(ps: Seq<Seq<char>>, t: Seq<char>)
    requires
        forall|i: int| 0 <= i < ps.len() ==> ends_a_line(#[trigger] ps[i]),
        forall|k: int| 0 <= k < t.len() - 1 ==> t[k] != '\n',
    ensures
        !straddles(ps, t),
{
    if straddles(ps, t) {
        let (i, j) = choose|i: int, j: int|
            0 <= i <= ps.len() && #[trigger] falls_apart(ps, t, i, j);
        lemma_apart_at_a_line_end(ps, t, i, j);
    }
}

/// How a summary stands in the place of what it hides.
pub open spec fn briefing(summary: Seq<char>) -> Seq<char> {
    "[history compressed]\n"@ + summary
}

/// What each entry shows in a sealed history: the first hidden one the summary,
/// the other hidden ones nothing, the rest themselves.
pub open spec fn sealed_pieces(es: Seq<EntryV>, first: int, upto: int, summary: Seq<char>) -> Seq<
    Seq<char>,
> {
    Seq::new(
        es.len(),
        |i: int|
            if i == first {
                entry_text(es[i].kind, briefing(summary))
            } else if i < upto && sealable(es[i]) {
                Seq::empty()
            } else {
                entry_text(es[i].kind, es[i].text)
            },
    )
}

proof fn lemma_pieces_run(es: Seq<EntryV>, first: int, upto: int, summary: Seq<char>, n: int)
    requires
        0 <= first < upto <= es.len(),
        opens_seal(es, first),
        0 <= n <= es.len(),
    ensures
        run_of(sealed_pieces(es, first, upto, summary), n) == (if n <= first {
            verbatim(es, 0, n)
        } else if n <= upto {
            verbatim(es, 0, first) + entry_text(es[first].kind, briefing(summary)) + lasting(
                es,
                first + 1,
                n,
            )
        } else {
            verbatim(es, 0, first) + entry_text(es[first].kind, briefing(summary)) + lasting(
                es,
                first + 1,
                upto,
            ) + verbatim(es, upto, n)
        }),
    decreases n,
{
    let ps = sealed_pieces(es, first, upto, summary);
    let head = verbatim(es, 0, first) + entry_text(es[first].kind, briefing(summary));
    if n > 0 {
        let i = n - 1;
        lemma_pieces_run(es, first, upto, summary, i);
        if i < first {
            assert(!sealable(es[i]));
        } else if i == first {
            assert(head + lasting(es, first + 1, n) =~= head);
        } else if i < upto {
            if sealable(es[i]) {
                assert(run_of(ps, n) =~= run_of(ps, i));
            } else {
                assert(head + lasting(es, first + 1, i) + ps[i] =~= head + lasting(
                    es,
                    first + 1,
                    n,
                ));
            }
        } else {
            let body = head + lasting(es, first + 1, upto);
            if i == upto {
                assert(body + verbatim(es, upto, i) =~= body);
            }
            assert(body + verbatim(es, upto, i) + ps[i] =~= body + verbatim(es, upto, n));
        }
    }
}

/// A sealed document is what its entries show, one after the other, each ended
/// by a line break.
pub proof fn a_sealed_document_is_its_pieces(
    es: Seq<EntryV>,
    first: int,
    upto: int,
    summary: Seq<char>,
)
    requires
        0 <= first < upto <= es.len(),
        opens_seal(es, first),
    ensures
        run_of(sealed_pieces(es, first, upto, summary), es.len() as int) == sealed_document(
            es,
            first,
            upto,
            summary,
        ),
        forall|i: int|
            0 <= i < es.len() ==> ends_a_line(
                #[trigger] sealed_pieces(es, first, upto, summary)[i],
            ),
{
    lemma_pieces_run(es, first, upto, summary, es.len() as int);
    let head = verbatim(es, 0, first) + entry_text(es[first].kind, briefing(summary)) + lasting(
        es,
        first + 1,
        upto,
    );
    if upto == es.len() {
        assert(head + verbatim(es, upto, es.len() as int) =~= head);
    }
    reveal_strlit("\n");
    reveal_strlit("\n\n## LOG\n");
}

/// A summary that was replaced stands nowhere in a sealed document, if nothing
/// that is shown holds it, neither an entry with its label nor the new briefing,
/// and neighbours do not happen to put it together; and only then.
pub proof fn a_replaced_summary_is_gone(
    es: Seq<EntryV>,
    first: int,
    upto: int,
    old_summary: Seq<char>,
    new_summary: Seq<char>,
)
    requires
        0 <= first < upto <= es.len(),
        opens_seal(es, first),
        old_summary.len() > 0,
    ensures
        !stands_in(sealed_document(es, first, upto, new_summary), old_summary) <==> {
            &&& !in_a_piece(sealed_pieces(es, first, upto, new_summary), old_summary)
            &&& !straddles(sealed_pieces(es, first, upto, new_summary), old_summary)
        },
{
    a_sealed_document_is_its_pieces(es, first, upto, new_summary);
    a_text_stands_in_a_piece_or_straddles(
        sealed_pieces(es, first, upto, new_summary),
        old_summary,
    );
}

/// A summary of one line that was replaced stands nowhere in a sealed document,
/// if nothing that is shown holds it; and only then.
pub proof fn a_replaced_line_is_gone(
    es: Seq<EntryV>,
    first: int,
    upto: int,
    old_summary: Seq<char>,
    new_summary: Seq<char>,
)
    requires
        0 <= first < upto <= es.len(),
        opens_seal(es, first),
        old_summary.len() > 0,
        forall|k: int| 0 <= k < old_summary.len() ==> old_summary[k] != '\n',
    ensures
        !stands_in(sealed_document(es, first, upto, new_summary), old_summary) <==> !in_a_piece(
            sealed_pieces(es, first, upto, new_summary),
            old_summary,
        ),
{
    a_replaced_summary_is_gone(es, first, upto, old_summary, new_summary);
    a_sealed_document_is_its_pieces(es, first, upto, new_summary);
    one_line_never_straddles(sealed_pieces(es, first, upto, new_summary), old_summary);
}

/// Where a briefing begins in the entry that it stands for.
pub open spec fn label_of(kind: Kind) -> Seq<char> {
    match kind {
        Kind::Task => "## TASK\n"@,
        Kind::Action => "> "@,
        Kind::Final => "DONE: "@,
        Kind::Result => Seq::empty(),
        Kind::Pin => Seq::empty(),
    }
}

proof fn lemma_mark()
    ensures
        "[history compressed]\n"@.len() == 21,
        "[history compressed]\n"@[0] == '[',
        forall|x: int| 0 < x < 21 ==> "[history compressed]\n"@[x] != '[',
        forall|x: int| 0 <= x < 20 ==> "[history compressed]\n"@[x] != '\n',
{
    reveal_strlit("[history compressed]\n");
}

proof fn lemma_label(kind: Kind, t: Seq<char>)
    requires
        kind != Kind::Task,
    ensures
        entry_text(kind, t) == label_of(kind) + t + "\n"@,
        !label_of(kind).contains('['),
{
    reveal_strlit("> ");
    reveal_strlit("DONE: ");
    assert(entry_text(kind, t) =~= label_of(kind) + t + "\n"@);
}

proof fn lemma_block_holds_once(kind: Kind, summary: Seq<char>, k: int)
    requires
        kind != Kind::Task,
    ensures
        text::occurs_at(entry_text(kind, briefing(summary)), briefing(summary), k) <==> k
            == label_of(kind).len(),
{
    let t = briefing(summary);
    let l = label_of(kind);
    let s = entry_text(kind, t);
    lemma_mark();
    lemma_label(kind, t);
    assert(s.subrange(l.len() as int, (l.len() + t.len()) as int) =~= t);
    if text::occurs_at(s, t, k) {
        reveal_strlit("\n");
        assert(s.subrange(k, k + t.len())[0] == s[k]);
        if k < l.len() {
            assert(s[k] == l[k]);
        } else if k > l.len() {
            assert(s[k] == t[1]);
        }
    }
}

/// Where the briefing of a sealed document stands.
pub open spec fn briefing_place(es: Seq<EntryV>, first: int) -> int {
    (verbatim(es, 0, first).len() + label_of(es[first].kind).len()) as int
}

/// A briefing stands in a sealed document in the place of the first hidden
/// entry, and nowhere else, if no other entry that is shown holds it and
/// neighbours do not happen to put it together; and only then.
pub proof fn a_summary_stands_once(es: Seq<EntryV>, first: int, upto: int, summary: Seq<char>)
    requires
        0 <= first < upto <= es.len(),
        opens_seal(es, first),
    ensures
        text::occurs_at(
            sealed_document(es, first, upto, summary),
            briefing(summary),
            briefing_place(es, first),
        ),
        (forall|m: int| #[trigger]
            text::occurs_at(sealed_document(es, first, upto, summary), briefing(summary), m) ==> m
                == briefing_place(es, first)) <==> {
            &&& forall|i: int|
                0 <= i < es.len() && i != first ==> !stands_in(
                    #[trigger] sealed_pieces(es, first, upto, summary)[i],
                    briefing(summary),
                )
            &&& !straddles(sealed_pieces(es, first, upto, summary), briefing(summary))
        },
{
    let ps = sealed_pieces(es, first, upto, summary);
    let n = es.len() as int;
    let t = briefing(summary);
    let doc = sealed_document(es, first, upto, summary);
    let l = label_of(es[first].kind).len() as int;
    let place = briefing_place(es, first);
    a_sealed_document_is_its_pieces(es, first, upto, summary);
    lemma_pieces_run(es, first, upto, summary, first);
    reveal_strlit("[history compressed]\n");
    lemma_block_holds_once(es[first].kind, summary, l);
    lemma_piece_in_run(ps, t, first, l);
    lemma_run(ps, first + 1, n);
    let others = forall|i: int| 0 <= i < n && i != first ==> !stands_in(#[trigger] ps[i], t);
    if others && !straddles(ps, t) {
        assert forall|m: int| #[trigger] text::occurs_at(doc, t, m) implies m == place by {
            let i = lemma_where_it_stands(ps, t, m);
            let k = m - run_of(ps, i).len();
            assert(!falls_apart(ps, t, i + 1, run_of(ps, i + 1).len() - m));
            assert(text::occurs_at(ps[i], t, k));
            assert(stands_in(ps[i], t));
            assert(i == first);
            lemma_block_holds_once(es[first].kind, summary, k);
        }
    }
    if !others {
        let i = choose|i: int| 0 <= i < n && i != first && stands_in(#[trigger] ps[i], t);
        let k = choose|k: int| #[trigger] text::occurs_at(ps[i], t, k);
        lemma_piece_in_run(ps, t, i, k);
        let m = run_of(ps, i).len() + k;
        assert(text::occurs_at(doc, t, m));
        if i < first {
            lemma_run(ps, i + 1, first);
        } else {
            lemma_run(ps, first + 1, i);
        }
        assert(m != place);
    }
    if straddles(ps, t) {
        let (i, j) = choose|i: int, j: int| 0 <= i <= n && #[trigger] falls_apart(ps, t, i, j);
        lemma_straddler_stands(ps, t, i, j);
        let m = run_of(ps, i).len() - j;
        assert(text::occurs_at(doc, t, m));
        if i <= first {
            lemma_run(ps, i, first);
        } else {
            lemma_run(ps, first + 1, i);
        }
        assert(m != place);
    }
}

proof fn lemma_mark_in_briefing(kind: Kind, summary: Seq<char>, k: int)
    requires
        kind != Kind::Task,
        !stands_in(summary + "\n"@, "[history compressed]\n"@),
        text::occurs_at(entry_text(kind, briefing(summary)), "[history compressed]\n"@, k),
    ensures
        k == label_of(kind).len(),
{
    let mark = "[history compressed]\n"@;
    let l = label_of(kind);
    let rest = summary + "\n"@;
    let s = entry_text(kind, briefing(summary));
    lemma_mark();
    lemma_label(kind, briefing(summary));
    assert(s =~= l + mark + rest);
    assert(s.subrange(k, k + mark.len())[0] == s[k]);
    if k < l.len() {
        assert(s[k] == l[k]);
    } else if k >= l.len() + mark.len() {
        let at = k - l.len() - mark.len();
        assert(rest.subrange(at, at + mark.len()) =~= s.subrange(k, k + mark.len()));
        assert(text::occurs_at(rest, mark, at));
    } else {
        assert(s[k] == mark[k - l.len()]);
    }
}

/// Where no line that is shown, of an entry or of the summary, ends as the first
/// line of a briefing does, the briefing stands exactly once, whatever the
/// summary says.
pub proof fn a_marked_summary_stands_once(
    es: Seq<EntryV>,
    first: int,
    upto: int,
    summary: Seq<char>,
    m: int,
)
    requires
        0 <= first < upto <= es.len(),
        opens_seal(es, first),
        forall|i: int|
            0 <= i < es.len() && i != first ==> !stands_in(
                #[trigger] sealed_pieces(es, first, upto, summary)[i],
                "[history compressed]\n"@,
            ),
        !stands_in(summary + "\n"@, "[history compressed]\n"@),
    ensures
        text::occurs_at(sealed_document(es, first, upto, summary), briefing(summary), m) <==> m
            == briefing_place(es, first),
{
    let ps = sealed_pieces(es, first, upto, summary);
    let mark = "[history compressed]\n"@;
    let doc = sealed_document(es, first, upto, summary);
    let t = briefing(summary);
    a_summary_stands_once(es, first, upto, summary);
    a_sealed_document_is_its_pieces(es, first, upto, summary);
    lemma_pieces_run(es, first, upto, summary, first);
    lemma_mark();
    if text::occurs_at(doc, t, m) {
        assert(doc.subrange(m, m + mark.len()) =~= mark) by {
            let part = doc.subrange(m, m + t.len());
            assert forall|x: int| 0 <= x < mark.len() implies doc[m + x] == #[trigger] mark[x] by {
                assert(part[x] == t[x]);
            }
        }
        let i = lemma_where_it_stands(ps, mark, m);
        let k = m - run_of(ps, i).len();
        let j = run_of(ps, i + 1).len() - m;
        one_line_never_straddles(ps, mark);
        assert(!falls_apart(ps, mark, i + 1, j));
        assert(text::occurs_at(ps[i], mark, k));
        assert(stands_in(ps[i], mark));
        assert(i == first);
        lemma_mark_in_briefing(es[first].kind, summary, k);
    }
}

/// After a second seal the document holds the second briefing once, in the place
/// of the first hidden entry, and nothing of the first summary: for every two
/// summaries that no shown entry holds, the first not held by the second, and
/// that neighbours do not happen to put together.
pub proof fn one_briefing_is_left(
    st: RenderV,
    es: Seq<EntryV>,
    more: Seq<EntryV>,
    keep_last: int,
    old_summary: Seq<char>,
    new_summary: Seq<char>,
    first: int,
    cfg: CtxCfg,
    turn: u32,
    cpt: int,
)
    requires
        faithful(st, es),
        0 <= keep_last,
        es.len() + more.len() <= usize::MAX,
        0 <= first < keep_from(st, es.len() as int, keep_last),
        opens_seal(es, first),
        cfg.mode@ == "append"@,
        total_of(
            sealed(
                sealed(st, es, keep_last, old_summary),
                es + more,
                keep_last,
                new_summary,
            ).overrides,
            es + more,
            cpt,
            (es + more).len() as int,
        ) <= cfg.budget_tokens,
        old_summary.len() > 0,
        ({
            let upto = keep_from(st, (es + more).len() as int, keep_last);
            let shown = sealed_pieces(es + more, first, upto, new_summary);
            &&& !in_a_piece(shown, old_summary)
            &&& !straddles(shown, old_summary)
            &&& forall|i: int|
                0 <= i < shown.len() && i != first ==> !stands_in(
                    #[trigger] shown[i],
                    briefing(new_summary),
                )
            &&& !straddles(shown, briefing(new_summary))
        }),
    ensures
        ({
            let now = sealed(
                sealed(st, es, keep_last, old_summary),
                es + more,
                keep_last,
                new_summary,
            );
            let document = rendered(now, es + more, cfg, turn, cpt);
            &&& !stands_in(document, old_summary)
            &&& forall|m: int| #[trigger]
                text::occurs_at(document, briefing(new_summary), m) <==> m == briefing_place(
                    es + more,
                    first,
                )
        }),
{
    let all = es + more;
    let upto = keep_from(st, all.len() as int, keep_last);
    a_new_briefing_replaces_the_old(
        st,
        es,
        more,
        keep_last,
        old_summary,
        new_summary,
        first,
        cfg,
        turn,
        cpt,
    );
    assert(opens_seal(all, first)) by {
        assert(all[first] == es[first]);
        assert forall|j: int| 0 <= j < first implies !sealable(#[trigger] all[j]) by {
            assert(all[j] == es[j]);
        }
    }
    a_replaced_summary_is_gone(all, first, upto, old_summary, new_summary);
    a_summary_stands_once(all, first, upto, new_summary);
}

proof fn lemma_squeezed(
    es: Seq<EntryV>,
    forms: Seq<Option<Seq<char>>>,
    budget: int,
    cpt: int,
    i: int,
    total: int,
)
    requires
        0 <= i <= es.len(),
        forms.len() == es.len(),
        total == formed_total(es, forms, cpt, es.len() as int),
        forall|k: int| 0 <= k < es.len() && forms[k] is Some ==> (#[trigger] es[k]).kind
            == Kind::Result,
        forall|k: int| 0 <= k < i && (#[trigger] es[k]).kind == Kind::Result ==> forms[k] is Some,
    ensures
        squeezed(es, forms, budget, cpt, i, total).len() == es.len(),
        forall|k: int|
            0 <= k < es.len() && squeezed(es, forms, budget, cpt, i, total)[k] is Some ==> (
            #[trigger] es[k]).kind == Kind::Result,
        formed_total(es, squeezed(es, forms, budget, cpt, i, total), cpt, es.len() as int) <= budget
            || forall|k: int|
            0 <= k < es.len() && (#[trigger] es[k]).kind == Kind::Result ==> squeezed(
                es,
                forms,
                budget,
                cpt,
                i,
                total,
            )[k] is Some,
    decreases es.len() - i,
{
    if i < es.len() && total > budget {
        if es[i].kind == Kind::Result && forms[i] is None {
            let f = folded(es[i].text);
            lemma_formed_total_update(es, forms, cpt, es.len() as int, i, f);
            lemma_squeezed(
                es,
                forms.update(i, Some(f)),
                budget,
                cpt,
                i + 1,
                total - estimate(es[i].text, cpt) + estimate(f, cpt),
            );
        } else {
            lemma_squeezed(es, forms, budget, cpt, i + 1, total);
        }
    }
}

/// In working-set mode only results are ever shortened, and the document is
/// over budget only once no full result is left to fold.
pub proof fn working_set_holds_the_budget(es: Seq<EntryV>, cfg: CtxCfg, turn: u32, cpt: int)
    ensures
        final_forms(es, cfg, turn, cpt).len() == es.len(),
        forall|k: int|
            0 <= k < es.len() && final_forms(es, cfg, turn, cpt)[k] is Some ==> (
            #[trigger] es[k]).kind == Kind::Result,
        formed_total(es, final_forms(es, cfg, turn, cpt), cpt, es.len() as int)
            <= cfg.budget_tokens || forall|k: int|
            0 <= k < es.len() && (#[trigger] es[k]).kind == Kind::Result ==> final_forms(
                es,
                cfg,
                turn,
                cpt,
            )[k] is Some,
{
    let forms = short_forms(es, cfg, turn);
    lemma_squeezed(
        es,
        forms,
        cfg.budget_tokens as int,
        cpt,
        0,
        formed_total(es, forms, cpt, es.len() as int),
    );
}

proof fn lemma_last_read(es: Seq<EntryV>, fid: u32)
    ensures
        match last_read(es, fid) {
            Some(i) => 0 <= i < es.len() && es[i].kind == Kind::Result && es[i].file == Some(fid),
            None => true,
        },
    decreases es.len(),
{
    if es.len() > 0 {
        lemma_last_read(es.drop_last(), fid);
    }
}

/// In working-set mode, within the budget, the newest read of a file stands in
/// full, and every older read of it only as a note that it is superseded.
pub proof fn the_newest_read_stands_in_full(
    es: Seq<EntryV>,
    cfg: CtxCfg,
    turn: u32,
    cpt: int,
    fid: u32,
)
    requires
        last_read(es, fid) is Some,
        formed_total(es, short_forms(es, cfg, turn), cpt, es.len() as int) <= cfg.budget_tokens,
    ensures
        final_forms(es, cfg, turn, cpt)[last_read(es, fid)->0] is None,
        forall|i: int|
            0 <= i < es.len() && (#[trigger] es[i]).kind == Kind::Result && es[i].file == Some(fid)
                && Some(i) != last_read(es, fid) ==> final_forms(es, cfg, turn, cpt)[i] == Some(
                "(superseded by newer read of #"@ + decimal(fid as nat) + ")"@,
            ),
{
    lemma_last_read(es, fid);
}

proof fn lemma_formed_piece(es: Seq<EntryV>, forms: Seq<Option<Seq<char>>>, i: int, n: int)
    requires
        0 <= i < n <= es.len(),
    ensures
        text::occurs_at(
            formed_document(es, forms, n),
            entry_text(es[i].kind, formed(es, forms, i)),
            formed_document(es, forms, i).len() as int,
        ),
    decreases n,
{
    let t = entry_text(es[i].kind, formed(es, forms, i));
    let at = formed_document(es, forms, i).len() as int;
    let doc = formed_document(es, forms, n);
    if n == i + 1 {
        assert(doc.subrange(at, at + t.len()) =~= t);
    } else {
        lemma_formed_piece(es, forms, i, n - 1);
        let before = formed_document(es, forms, n - 1);
        assert(doc.subrange(at, at + t.len()) =~= before.subrange(at, at + t.len()));
    }
}

/// In working-set mode, within the budget, a result that is no read and repeats
/// no earlier one stands in the document word for word as long as it is no more
/// than `fold_after_turns` turns old. When it is older only its first line
/// stands there, with the number of lines that were folded away; a result of one
/// line stands as it is.
pub proof fn fresh_results_stand_and_old_ones_fold(
    st: RenderV,
    es: Seq<EntryV>,
    cfg: CtxCfg,
    turn: u32,
    cpt: int,
    i: int,
)
    requires
        cfg.mode@ != "append"@,
        0 <= i < es.len(),
        es[i].kind == Kind::Result,
        es[i].file is None,
        forall|j: int|
            0 <= j < i && (#[trigger] es[j]).kind == Kind::Result ==> es[j].hash != es[i].hash,
        formed_total(es, short_forms(es, cfg, turn), cpt, es.len() as int) <= cfg.budget_tokens,
    ensures
        turn - es[i].turn <= cfg.fold_after_turns ==> stands_in(
            rendered(st, es, cfg, turn, cpt),
            es[i].text + seq!['\n'],
        ) && final_forms(es, cfg, turn, cpt)[i] is None,
        turn - es[i].turn > cfg.fold_after_turns && lines_of(es[i].text).len() > 1 ==> ({
            let short = lines_of(es[i].text)[0] + " …("@ + decimal(
                (lines_of(es[i].text).len() - 1) as nat,
            ) + " lines folded)"@;
            &&& stands_in(rendered(st, es, cfg, turn, cpt), short + seq!['\n'])
            &&& final_forms(es, cfg, turn, cpt)[i] == Some(short)
        }),
        turn - es[i].turn > cfg.fold_after_turns && lines_of(es[i].text) == seq![es[i].text]
            ==> stands_in(rendered(st, es, cfg, turn, cpt), es[i].text + seq!['\n']),
{
    reveal_strlit("\n");
    assert("\n"@ =~= seq!['\n']);
    crate::ledger::lemma_first_result(es, es[i].hash);
    assert(first_result(es, es[i].hash) == Some(i)) by {
        if let Some(j) = first_result(es, es[i].hash) {
            if j < i {
                assert(es[j].hash != es[i].hash);
            }
        }
    }
    let forms = final_forms(es, cfg, turn, cpt);
    lemma_formed_piece(es, forms, i, es.len() as int);
}

/// In working-set mode tasks, actions, pins and final messages always stand word
/// for word, whatever the budget.
pub proof fn only_results_are_shortened(
    st: RenderV,
    es: Seq<EntryV>,
    cfg: CtxCfg,
    turn: u32,
    cpt: int,
    i: int,
)
    requires
        cfg.mode@ != "append"@,
        0 <= i < es.len(),
        es[i].kind != Kind::Result,
    ensures
        stands_in(rendered(st, es, cfg, turn, cpt), es[i].text),
        stands_in(
            rendered(st, es, cfg, turn, cpt),
            match es[i].kind {
                Kind::Task => "## TASK\n"@ + es[i].text + "\n\n## LOG\n"@,
                Kind::Action => "> "@ + es[i].text + "\n"@,
                Kind::Final => "DONE: "@ + es[i].text + "\n"@,
                _ => es[i].text + "\n"@,
            },
        ),
{
    working_set_holds_the_budget(es, cfg, turn, cpt);
    let forms = final_forms(es, cfg, turn, cpt);
    assert(forms[i] is None) by {
        if forms[i] is Some {
            assert(es[i].kind == Kind::Result);
        }
    }
    lemma_formed_piece(es, forms, i, es.len() as int);
    let doc = rendered(st, es, cfg, turn, cpt);
    let t = es[i].text;
    let whole = entry_text(es[i].kind, t);
    let at = formed_document(es, forms, i).len() as int;
    let k = match es[i].kind {
        Kind::Task => "## TASK\n"@.len() as int,
        Kind::Action => "> "@.len() as int,
        Kind::Final => "DONE: "@.len() as int,
        _ => 0,
    };
    assert(whole.subrange(k, k + t.len()) =~= t);
    assert(doc.subrange(at + k, at + k + t.len()) =~= doc.subrange(at, at + whole.len()).subrange(
        k,
        k + t.len(),
    ));
    assert(text::occurs_at(doc, t, at + k));
}

/// In working-set mode a result that repeats an earlier one, and is no read, is
/// only pointed out as identical.
pub proof fn repeated_results_are_pointed_out(
    es: Seq<EntryV>,
    cfg: CtxCfg,
    turn: u32,
    cpt: int,
    i: int,
    j: int,
)
    requires
        0 <= j < i < es.len(),
        es[i].kind == Kind::Result,
        es[j].kind == Kind::Result,
        es[i].file is None,
        es[i].hash == es[j].hash,
    ensures
        final_forms(es, cfg, turn, cpt)[i] == Some("(= identical to an earlier result)"@),
{
    crate::ledger::lemma_first_result(es, es[i].hash);
    let forms = short_forms(es, cfg, turn);
    assert(first_result(es, es[i].hash) != Some(i)) by {
        if first_result(es, es[i].hash) == Some(i) {
            assert(!(es[j].kind == Kind::Result && es[j].hash == es[i].hash));
        }
    }
    lemma_squeezed_keeps(
        es,
        forms,
        cfg.budget_tokens as int,
        cpt,
        0,
        formed_total(es, forms, cpt, es.len() as int),
        i,
    );
}

proof fn lemma_squeezed_keeps(
    es: Seq<EntryV>,
    forms: Seq<Option<Seq<char>>>,
    budget: int,
    cpt: int,
    i: int,
    total: int,
    k: int,
)
    requires
        0 <= i,
        forms.len() == es.len(),
        0 <= k < es.len(),
        forms[k] is Some || k < i,
    ensures
        squeezed(es, forms, budget, cpt, i, total)[k] == forms[k],
    decreases es.len() - i,
{
    if i < es.len() && total > budget {
        if es[i].kind == Kind::Result && forms[i] is None {
            let f = folded(es[i].text);
            lemma_squeezed_keeps(
                es,
                forms.update(i, Some(f)),
                budget,
                cpt,
                i + 1,
                total - estimate(es[i].text, cpt) + estimate(f, cpt),
                k,
            );
        } else {
            lemma_squeezed_keeps(es, forms, budget, cpt, i + 1, total, k);
        }
    }
}

proof fn lemma_squeezed_oldest(
    es: Seq<EntryV>,
    forms: Seq<Option<Seq<char>>>,
    budget: int,
    cpt: int,
    i: int,
    total: int,
    k: int,
    m: int,
)
    requires
        0 <= i <= k < m < es.len(),
        forms.len() == es.len(),
        es[k].kind == Kind::Result,
        squeezed(es, forms, budget, cpt, i, total)[k] is None,
    ensures
        squeezed(es, forms, budget, cpt, i, total)[m] == forms[m],
    decreases es.len() - i,
{
    if i < es.len() && total > budget {
        if es[i].kind == Kind::Result && forms[i] is None {
            let f = folded(es[i].text);
            let next = forms.update(i, Some(f));
            let left = total - estimate(es[i].text, cpt) + estimate(f, cpt);
            if i == k {
                lemma_squeezed_keeps(es, next, budget, cpt, i + 1, left, k);
            } else {
                lemma_squeezed_oldest(es, next, budget, cpt, i + 1, left, k, m);
            }
        } else if i == k {
            lemma_squeezed_keeps(es, forms, budget, cpt, i + 1, total, k);
        } else {
            lemma_squeezed_oldest(es, forms, budget, cpt, i + 1, total, k, m);
        }
    }
}

/// Over the budget the oldest results are folded first: while a result stands in
/// full, none that came after it has been shortened for the budget's sake.
pub proof fn the_oldest_results_go_first(
    es: Seq<EntryV>,
    cfg: CtxCfg,
    turn: u32,
    cpt: int,
    k: int,
    m: int,
)
    requires
        0 <= k < m < es.len(),
        es[k].kind == Kind::Result,
        final_forms(es, cfg, turn, cpt)[k] is None,
    ensures
        final_forms(es, cfg, turn, cpt)[m] == short_form(es, cfg, turn, m),
{
    let forms = short_forms(es, cfg, turn);
    lemma_squeezed_oldest(
        es,
        forms,
        cfg.budget_tokens as int,
        cpt,
        0,
        formed_total(es, forms, cpt, es.len() as int),
        k,
        m,
    );
}

proof fn lemma_plain_document(es: Seq<EntryV>, n: int)
    requires
        0 <= n <= es.len(),
    ensures
        document(Map::empty(), es, n) == verbatim(es, 0, n),
    decreases n,
{
    if n > 0 {
        lemma_plain_document(es, n - 1);
    }
}

proof fn lemma_verbatim_piece(es: Seq<EntryV>, i: int, n: int)
    requires
        0 <= i < n <= es.len(),
    ensures
        text::occurs_at(
            verbatim(es, 0, n),
            entry_text(es[i].kind, es[i].text),
            verbatim(es, 0, i).len() as int,
        ),
    decreases n,
{
    let t = entry_text(es[i].kind, es[i].text);
    let at = verbatim(es, 0, i).len() as int;
    let doc = verbatim(es, 0, n);
    if n == i + 1 {
        assert(doc.subrange(at, at + t.len()) =~= t);
    } else {
        lemma_verbatim_piece(es, i, n - 1);
        assert(doc.subrange(at, at + t.len()) =~= verbatim(es, 0, n - 1).subrange(
            at,
            at + t.len(),
        ));
    }
}

/// In append mode a ledger that fits the budget and was never sealed is the
/// document: every entry stands in it word for word, with its label, one after
/// the other, and nothing else does.
pub proof fn nothing_is_hidden_within_the_budget(
    es: Seq<EntryV>,
    cfg: CtxCfg,
    turn: u32,
    cpt: int,
    i: int,
)
    requires
        cfg.mode@ == "append"@,
        0 <= i < es.len(),
        es.len() <= usize::MAX,
        total_of(Map::empty(), es, cpt, es.len() as int) <= cfg.budget_tokens,
    ensures
        ({
            let st = RenderV { sealed_upto: 0, overrides: Map::empty(), last_seal_len: 0 };
            let doc = rendered(st, es, cfg, turn, cpt);
            let whole = match es[i].kind {
                Kind::Task => "## TASK\n"@ + es[i].text + "\n\n## LOG\n"@,
                Kind::Action => "> "@ + es[i].text + "\n"@,
                Kind::Final => "DONE: "@ + es[i].text + "\n"@,
                _ => es[i].text + "\n"@,
            };
            &&& stands_in(doc, whole)
            &&& rendered(st, es.push(es[i]), cfg, turn, cpt) == doc + whole || total_of(
                Map::empty(),
                es.push(es[i]),
                cpt,
                es.len() + 1int,
            ) > cfg.budget_tokens
        }),
{
    let st = RenderV { sealed_upto: 0, overrides: Map::empty(), last_seal_len: 0 };
    let n = es.len() as int;
    lemma_plain_document(es, n);
    lemma_verbatim_piece(es, i, n);
    let more = es.push(es[i]);
    assert(more.drop_last() =~= es);
    lemma_plain_document(more, n + 1);
    lemma_verbatim_same(es, es[i], n);
}

proof fn lemma_verbatim_same(es: Seq<EntryV>, e: EntryV, n: int)
    requires
        0 <= n <= es.len(),
    ensures
        verbatim(es.push(e), 0, n) == verbatim(es, 0, n),
    decreases n,
{
    if n > 0 {
        lemma_verbatim_same(es, e, n - 1);
    }
}

/// Over the budget in append mode results older than the kept tail are folded to
/// a line each, once and for all; the last `compact_keep_last` entries, and
/// everything that is no result, stand in full.
pub proof fn over_the_budget_old_results_fold(
    es: Seq<EntryV>,
    cfg: CtxCfg,
    turn: u32,
    cpt: int,
    i: int,
)
    requires
        cfg.mode@ == "append"@,
        0 <= i < es.len(),
        es.len() <= usize::MAX,
        total_of(Map::empty(), es, cpt, es.len() as int) > cfg.budget_tokens,
    ensures
        ({
            let st = RenderV { sealed_upto: 0, overrides: Map::empty(), last_seal_len: 0 };
            let doc = rendered(st, es, cfg, turn, cpt);
            let old = i < es.len() - cfg.compact_keep_last && es[i].kind == Kind::Result;
            &&& !old ==> stands_in(
                doc,
                match es[i].kind {
                    Kind::Task => "## TASK\n"@ + es[i].text + "\n\n## LOG\n"@,
                    Kind::Action => "> "@ + es[i].text + "\n"@,
                    Kind::Final => "DONE: "@ + es[i].text + "\n"@,
                    _ => es[i].text + "\n"@,
                },
            )
            &&& old && lines_of(es[i].text).len() > 1 ==> stands_in(
                doc,
                lines_of(es[i].text)[0] + " …("@ + decimal(
                    (lines_of(es[i].text).len() - 1) as nat,
                ) + " lines folded)"@ + "\n"@,
            )
        }),
{
    let st = RenderV { sealed_upto: 0, overrides: Map::empty(), last_seal_len: 0 };
    let now = resealed(st, es, cfg, cpt);
    reveal_strlit(" …(");
    lemma_document_piece(now.overrides, es, i, es.len() as int);
    let doc = rendered(st, es, cfg, turn, cpt);
    assert(stands_in(doc, piece(now.overrides, es, i)));
    let old = i < es.len() - cfg.compact_keep_last && es[i].kind == Kind::Result;
    if !old {
        assert(!now.overrides.contains_key(i as usize));
    } else if lines_of(es[i].text).len() > 1 {
        assert(now.overrides.contains_key(i as usize));
        assert(now.overrides[i as usize] == folded(es[i].text));
    }
}

proof fn lemma_document_piece(ov: Map<usize, Seq<char>>, es: Seq<EntryV>, i: int, n: int)
    requires
        0 <= i < n <= es.len(),
    ensures
        text::occurs_at(
            document(ov, es, n),
            piece(ov, es, i),
            document(ov, es, i).len() as int,
        ),
    decreases n,
{
    let t = piece(ov, es, i);
    let at = document(ov, es, i).len() as int;
    let doc = document(ov, es, n);
    if n == i + 1 {
        assert(doc.subrange(at, at + t.len()) =~= t);
    } else {
        lemma_document_piece(ov, es, i, n - 1);
        assert(doc.subrange(at, at + t.len()) =~= document(ov, es, n - 1).subrange(
            at,
            at + t.len(),
        ));
    }
}

/// When a seal is due: only in append mode, only with at least eight new entries
/// since the last one, and only over the threshold, where what the provider
/// billed decides if it is known.
pub proof fn seals_wait_until_they_pay(
    st: RenderV,
    es: Seq<EntryV>,
    cfg: CtxCfg,
    threshold: int,
    billed: usize,
    cpt: int,
)
    ensures
        is_seal_due(st, es, cfg, threshold, Some(billed), cpt) <==> cfg.mode@ == "append"@ && billed
            > threshold && es.len() - st.last_seal_len >= 8,
        is_seal_due(st, es, cfg, threshold, None, cpt) ==> is_seal_due(
            st,
            es,
            cfg,
            threshold - 1,
            None,
            cpt,
        ),
        is_seal_due(st, es, cfg, threshold, None, cpt) <==> cfg.mode@ == "append"@ && total_of(
            st.overrides,
            es,
            cpt,
            es.len() as int,
        ) > threshold && es.len() - st.last_seal_len >= 8,
{
}

/// Seals belong to append mode: there the document is the one of the state after the
/// turn, seals and all; in every other mode the state stays as it was.
pub proof fn only_append_mode_seals(
    st: RenderV,
    es: Seq<EntryV>,
    cfg: CtxCfg,
    turn: u32,
    cpt: int,
)
    ensures
        cfg.mode@ != "append"@ ==> rendered_state(st, es, cfg, cpt) == st,
        cfg.mode@ == "append"@ ==> rendered(st, es, cfg, turn, cpt) == document(
            rendered_state(st, es, cfg, cpt).overrides,
            es,
            es.len() as int,
        ),
        cfg.mode@ == "append"@ ==> rendered_state(st, es, cfg, cpt) == resealed(st, es, cfg, cpt),
{
}

} // verus!
