//! What a run is configured with.
//!
//! These are the plain values that the rules of the crate read. Tables keyed
//! by text stand in the order of their keys.

use crate::table::keys_in;
use crate::table::lookup;
use crate::table::put;
use crate::table::Table;
use crate::text;
use crate::text::is_upper;
use crate::text::joined;
use crate::text::opt_text;
use crate::text::texts;
use vstd::prelude::*;

verus! {

/// Verbs implemented natively. Config tools must not shadow these, except the
/// single-line ones below, with an explicit override flag. P (move a plan step)
/// and B (ask for deliberation) are among them: the lexer reads both as
/// commands of the protocol, so a tool under either letter could never run.
pub const NATIVE_VERBS: &'static str = "REIGNXADVSOPB";

/// Natives a tool may replace with `override = true` (game-mod style). The
/// payload verbs (E/I/N) and protocol verbs (S/D/A/P/B) stay native.
pub const OVERRIDABLE_VERBS: &'static str = "RGXOV";

#[derive(Clone)]
pub struct Config {
    pub model: ModelCfg,
    /// Named alternate models: switch with /model <name> (TUI) or -m <name>
    /// (CLI). Same shape as the default model, which stays the default.
    pub models: Table<ModelCfg>,
    pub context: CtxCfg,
    pub tool: Table<ToolCfg>,
    pub profile: Table<ProfileCfg>,
    pub distill: DistillCfg,
    pub execution: ExecCfg,
    pub plan: PlanCfg,
    pub verify: VerifyCfg,
    pub prompt: PromptCfg,
    /// Folder mods live here; each subdir with a mod.toml adds verbs/prompt.
    pub mods_dir: String,
    /// Accumulated prompt injections from loaded mods (not user-set).
    pub prompt_extra: String,
    /// Loader notes (loaded/skipped mods) for the UI.
    pub mod_notes: Vec<String>,
}

/// System-prompt shaping. The command reference, rules, and plan protocol are
/// always generated (they must match what the lexer parses); these hooks
/// replace the identity line and append free text after the rules.
#[derive(Clone)]
pub struct PromptCfg {
    /// Replaces the built-in identity line entirely.
    pub system: Option<String>,
    /// Appended after the rules (same slot mods inject into).
    pub extra: String,
}

impl Default for PromptCfg {
    fn default() -> (r: Self)
        ensures
            r.system is None,
            r.extra@ == ""@,
    {
        PromptCfg { system: None, extra: "".to_string() }
    }
}

/// Auto-verify: run this command automatically after any turn that edited
/// files, injecting the result. A failing verify also refuses a same-turn D.
#[derive(Clone)]
pub struct VerifyCfg {
    pub cmd: Option<String>,
    pub timeout_ms: u64,
    /// Pruner chain for the verify output.
    pub prune: String,
    /// Check the final report against what the run actually did.
    pub claims: bool,
}

impl Default for VerifyCfg {
    fn default() -> (r: Self)
        ensures
            r.cmd is None,
            r.timeout_ms == 0,
            r.prune@ == ""@,
            !r.claims,
    {
        VerifyCfg { cmd: None, timeout_ms: 0, prune: "".to_string(), claims: false }
    }
}

/// The plan-file state machine.
#[derive(Clone)]
pub struct PlanCfg {
    pub file: String,
    /// Refuse D while plan steps are open, auto-verify steps marked done.
    pub enforce: bool,
}

impl Default for PlanCfg {
    fn default() -> (r: Self)
        ensures
            r.file@ == "plan.json"@,
            r.enforce,
    {
        PlanCfg { file: "plan.json".to_string(), enforce: true }
    }
}

/// How X and config tools run their command lines.
#[derive(Clone)]
pub struct ExecCfg {
    /// "powershell" | "cmd" | "sh".
    pub shell: String,
}

impl ExecCfg {
    /// The shell of an operating system: PowerShell on Windows, where the
    /// model can use cmdlets directly with no nested quoting, else `sh`.
    pub fn for_os(windows: bool) -> (r: ExecCfg)
        ensures
            r.shell@ == (if windows {
                "powershell"@
            } else {
                "sh"@
            }),
    {
        if windows {
            ExecCfg { shell: "powershell".to_string() }
        } else {
            ExecCfg { shell: "sh".to_string() }
        }
    }
}

/// When to switch slow, deliberate thinking on, and how.
#[derive(Clone)]
pub struct ThinkCfg {
    /// The signals that arm it: "verify_fail", "collapse", "loop_warn",
    /// "request".
    pub on: Vec<String>,
    /// How many requests it stays on.
    pub turns: u32,
    /// Which failure of the same thing in a row arms it.
    pub after: u32,
    /// Fields merged into the request body while it is on, as JSON texts.
    pub kwargs: Table<String>,
}

#[derive(Clone)]
pub struct ModelCfg {
    pub base_url: String,
    pub model: String,
    pub api_key_env: Option<String>,
    pub max_tokens: u32,
    /// The sampling temperature as it is sent; `None` = the field is left out.
    pub temperature: Option<String>,
    /// Provider has a token-prefix cache (llama.cpp, vLLM). Selects append mode
    /// where the config names no mode.
    pub prefix_cache: bool,
    /// Extra fields merged verbatim into every request body, as JSON texts.
    pub extra_body: Option<Table<String>>,
    /// Named effort presets: each is a body fragment merged over `extra_body`
    /// when selected. The mapping is per provider, so it is configuration.
    pub effort: Table<Table<String>>,
    pub think: Option<ThinkCfg>,
}

#[derive(Clone)]
pub struct CtxCfg {
    /// "working_set": re-render aggressively every turn (no provider cache).
    /// "append": prefix-stable; folding only ever touches the tail at reseal.
    pub mode: String,
    pub budget_tokens: usize,
    /// Tool results older than this many turns collapse to their first line.
    pub fold_after_turns: u32,
    pub max_turns: u32,
    /// Cap on any single tool result, applied before pruners (bytes).
    pub result_cap_chars: usize,
    /// Pin a workspace orientation block at the head of the session.
    pub bootstrap: bool,
    /// Over-budget handling in append mode: "model" summarizes history with one
    /// prompt-cached model call; "structural" folds lines mechanically.
    pub compact: String,
    pub compact_keep_last: usize,
    /// Phase-boundary seal threshold; 0 = a third of the budget.
    pub compact_phase_tokens: usize,
    /// Project instruction files pinned into the bootstrap block when they
    /// exist at the workspace root, in this order. A config may name others.
    pub instruction_files: Vec<String>,
}

impl Default for CtxCfg {
    fn default() -> (r: Self)
        ensures
            r.mode@ == "working_set"@,
            r.budget_tokens == 16_000,
            r.fold_after_turns == 6,
            r.max_turns == 60,
            r.result_cap_chars == 12_000,
            r.bootstrap,
            r.compact@ == "model"@,
            r.compact_keep_last == 10,
            r.compact_phase_tokens == 0,
            texts(r.instruction_files@) == seq!["HASTE.md"@, "AGENTS.md"@],
    {
        let files = vec!["HASTE.md".to_string(), "AGENTS.md".to_string()];
        assert(texts(files@) =~= seq!["HASTE.md"@, "AGENTS.md"@]);
        CtxCfg {
            mode: "working_set".to_string(),
            budget_tokens: 16_000,
            fold_after_turns: 6,
            max_turns: 60,
            result_cap_chars: 12_000,
            bootstrap: true,
            compact: "model".to_string(),
            compact_keep_last: 10,
            compact_phase_tokens: 0,
            instruction_files: files,
        }
    }
}

/// The mode of a run: the one that the config names, else append mode where the
/// provider has a prefix cache to keep.
pub fn mode_for(named: Option<String>, prefix_cache: bool) -> (r: String)
    ensures
        r@ == (match named {
            Some(m) => m@,
            None => if prefix_cache {
                "append"@
            } else {
                "working_set"@
            },
        }),
{
    match named {
        Some(m) => m,
        None => if prefix_cache {
            "append".to_string()
        } else {
            "working_set".to_string()
        },
    }
}

/// A config-declared tool: one DSL verb -> one shell command template.
#[derive(Clone)]
pub struct ToolCfg {
    pub desc: String,
    pub cmd: String,
    /// head_tail:A,B | first_failure | errors_only | drop:REGEX | keep:REGEX | distill | none
    /// Chain with '|'.
    pub prune: Option<String>,
    pub timeout_ms: Option<u64>,
    /// Env vars set for this tool's process (mods use this for their config).
    pub env: Table<String>,
    /// Replace the native implementation of this verb (RGXOV only).
    pub override_native: bool,
    /// Polling tool: identical repeated results are its normal behavior, so
    /// the loop breaker leaves it alone.
    pub poll: bool,
}

#[derive(Clone)]
pub struct ProfileCfg {
    pub system: String,
    /// Verb letters this profile may use, e.g. "RGXW".
    pub tools: String,
    /// 0 = unlimited; the loop guards are the real rails.
    pub max_turns: u32,
    pub budget_tokens: usize,
}

impl ProfileCfg {
    /// A profile with the given system prompt and the usual limits.
    pub fn with_system(system: String) -> (r: ProfileCfg)
        ensures
            r.system == system,
            r.tools@ == "RGXD"@,
            r.max_turns == 0,
            r.budget_tokens == 8_000,
    {
        ProfileCfg { system, tools: "RGXD".to_string(), max_turns: 0, budget_tokens: 8_000 }
    }
}

#[derive(Clone)]
pub struct DistillCfg {
    pub prompt: String,
    pub max_tokens: u32,
}

impl Default for DistillCfg {
    fn default() -> (r: Self)
        ensures
            r.prompt@
                == "Extract only the facts relevant to the task below. Terse bullet lines, no prose. TASK: {task}\n---\n{text}"@,
            r.max_tokens == 400,
    {
        DistillCfg {
            prompt:
                "Extract only the facts relevant to the task below. Terse bullet lines, no prose. TASK: {task}\n---\n{text}".to_string(),
            max_tokens: 400,
        }
    }
}

pub const DEFAULT_TOML: &'static str = r#"
[model]
base_url = "http://127.0.0.1:8000/v1"
model = "default"
"#;

/// Starter config written by `haste init` — every popular way to connect,
/// one uncomment away.
pub const INIT_TOML: &'static str = r#"# haste config — point [model] at any OpenAI-compatible endpoint and go.
# Full reference of every knob: https://github.com/NodeNestor/haste/blob/master/haste.toml

[model]
# --- pick ONE block, uncomment, done ---

# Cerebras (wafer-speed; get a key at cloud.cerebras.ai):
# base_url = "https://api.cerebras.ai/v1"
# model = "zai-glm-4.7"
# api_key_env = "CEREBRAS_API_KEY"        # name of the env var holding your key

# Ollama (local):
# base_url = "http://127.0.0.1:11434/v1"
# model = "qwen3.5:9b"

# LM Studio (local):
# base_url = "http://127.0.0.1:1234/v1"
# model = "local-model"

# vLLM / llama.cpp server (local):
base_url = "http://127.0.0.1:8000/v1"
model = "default"

# OpenRouter:
# base_url = "https://openrouter.ai/api/v1"
# model = "qwen/qwen3.5-coder"
# api_key_env = "OPENROUTER_API_KEY"

max_tokens = 32768
temperature = 0.7
prefix_cache = true      # provider caches prompt prefixes (vLLM/llama.cpp/Cerebras: yes)

[context]
mode = "append"          # prefix-cache friendly; use "working_set" if your provider has no cache
budget_tokens = 40000

[verify]
# cmd = "cargo test"     # auto-runs after every editing turn; failing verify blocks D
"#;


// ---------------------------------------------------------------------------
// Models as mathematical values
// ---------------------------------------------------------------------------

/// The rows of a table of JSON fields.
pub type FieldsV = Seq<(Seq<char>, String)>;

#[verifier::ext_equal]
pub struct ThinkV {
    pub on: Seq<Seq<char>>,
    pub turns: u32,
    pub after: u32,
    pub kwargs: FieldsV,
}

#[verifier::ext_equal]
pub struct ModelV {
    pub base_url: Seq<char>,
    pub model: Seq<char>,
    pub api_key_env: Option<Seq<char>>,
    pub max_tokens: u32,
    pub temperature: Option<Seq<char>>,
    pub prefix_cache: bool,
    pub extra_body: Option<FieldsV>,
    pub effort: Seq<(Seq<char>, FieldsV)>,
    pub think: Option<ThinkV>,
}

impl View for ThinkCfg {
    type V = ThinkV;

    open spec fn view(&self) -> ThinkV {
        ThinkV { on: texts(self.on@), turns: self.turns, after: self.after, kwargs: self.kwargs@ }
    }
}

/// The rows of the effort presets.
pub open spec fn presets(t: Table<Table<String>>) -> Seq<(Seq<char>, FieldsV)> {
    t@.map_values(|p: (Seq<char>, Table<String>)| (p.0, p.1@))
}

impl View for ModelCfg {
    type V = ModelV;

    open spec fn view(&self) -> ModelV {
        ModelV {
            base_url: self.base_url@,
            model: self.model@,
            api_key_env: opt_text(self.api_key_env),
            max_tokens: self.max_tokens,
            temperature: opt_text(self.temperature),
            prefix_cache: self.prefix_cache,
            extra_body: match self.extra_body {
                Some(t) => Some(t@),
                None => None,
            },
            effort: presets(self.effort),
            think: match self.think {
                Some(t) => Some(t@),
                None => None,
            },
        }
    }
}

fn copy_texts(v: &Vec<String>) -> (r: Vec<String>)
    ensures
        texts(r@) == texts(v@),
{
    let mut r: Vec<String> = Vec::new();
    let mut i: usize = 0;
    while i < v.len()
        invariant
            i <= v@.len(),
            r@ == v@.take(i as int),
        decreases v@.len() - i,
    {
        r.push(v[i].clone());
        assert(r@ =~= v@.take(i + 1));
        i += 1;
    }
    assert(r@ =~= v@);
    r
}

fn copy_opt(o: &Option<String>) -> (r: Option<String>)
    ensures
        r == *o,
{
    match o {
        Some(s) => Some(s.clone()),
        None => None,
    }
}

fn copy_presets(t: &Table<Table<String>>) -> (r: Table<Table<String>>)
    ensures
        presets(r) == presets(*t),
{
    let mut items: Vec<(String, Table<String>)> = Vec::new();
    let mut i: usize = 0;
    let ghost all = presets(*t);
    while i < t.items.len()
        invariant
            i <= t.items@.len(),
            all == presets(*t),
            items@.len() == i,
            forall|k: int|
                0 <= k < i ==> ((#[trigger] items@[k]).0@, items@[k].1@) == all[k],
        decreases t.items@.len() - i,
    {
        let row = (t.items[i].0.clone(), t.items[i].1.copy());
        items.push(row);
        i += 1;
    }
    let r = Table { items };
    assert(presets(r) =~= all);
    r
}

impl ThinkCfg {
    pub fn copy(&self) -> (r: ThinkCfg)
        ensures
            r@ == self@,
    {
        ThinkCfg {
            on: copy_texts(&self.on),
            turns: self.turns,
            after: self.after,
            kwargs: self.kwargs.copy(),
        }
    }
}

impl ModelCfg {
    /// The body fields stand in the order of their keys.
    pub open spec fn wf(self) -> bool {
        self.extra_body is Some ==> (self.extra_body->0).wf()
    }

    /// A model with the same settings.
    pub fn copy(&self) -> (r: ModelCfg)
        ensures
            r@ == self@,
    {
        ModelCfg {
            base_url: self.base_url.clone(),
            model: self.model.clone(),
            api_key_env: copy_opt(&self.api_key_env),
            max_tokens: self.max_tokens,
            temperature: copy_opt(&self.temperature),
            prefix_cache: self.prefix_cache,
            extra_body: match &self.extra_body {
                Some(t) => Some(t.copy()),
                None => None,
            },
            effort: copy_presets(&self.effort),
            think: match &self.think {
                Some(t) => Some(t.copy()),
                None => None,
            },
        }
    }
}

// ---------------------------------------------------------------------------
// Choosing a model and an effort
// ---------------------------------------------------------------------------

/// The fields of `base` with those of `over` set one after the other.
pub open spec fn merged(base: FieldsV, over: FieldsV) -> FieldsV
    decreases over.len(),
{
    if over.len() == 0 {
        base
    } else {
        put(merged(base, over.drop_last()), over.last().0, over.last().1)
    }
}

/// The model that a run uses: the named alternate where there is one of that
/// name, else the default.
pub open spec fn model_named(cfg: Config, name: Option<Seq<char>>) -> ModelV {
    match name {
        Some(n) => match lookup(cfg.models@, n) {
            Some(m) => m@,
            None => cfg.model@,
        },
        None => cfg.model@,
    }
}

/// The model with an effort preset's fields merged over its own; unchanged
/// where it has no such preset.
pub open spec fn with_effort(m: ModelV, preset: Option<Seq<char>>) -> ModelV {
    match preset {
        Some(p) => match lookup(m.effort, p) {
            Some(frag) => {
                let base = match m.extra_body {
                    Some(b) => b,
                    None => Seq::empty(),
                };
                ModelV { extra_body: Some(merged(base, frag)), ..m }
            },
            None => m,
        },
        None => m,
    }
}

proof fn lemma_presets_lookup(t: Table<Table<String>>, k: Seq<char>, i: int)
    requires
        0 <= i,
    ensures
        crate::table::row_of(presets(t), k, i) == crate::table::row_of(t@, k, i),
        match crate::table::row_of(t@, k, i) {
            Some(j) => 0 <= j < t@.len(),
            None => true,
        },
    decreases t@.len() - i,
{
    if i < t@.len() {
        lemma_presets_lookup(t, k, i + 1);
    }
}

fn merge_fields(base: Table<String>, over: &Table<String>) -> (r: Table<String>)
    requires
        base.wf(),
    ensures
        r.wf(),
        r@ == merged(base@, over@),
{
    let mut r = base;
    let mut i: usize = 0;
    let ghost base0 = base@;
    assert(over@.take(0) =~= Seq::<(Seq<char>, String)>::empty());
    while i < over.items.len()
        invariant
            i <= over@.len(),
            r.wf(),
            r@ == merged(base0, over@.take(i as int)),
        decreases over@.len() - i,
    {
        proof {
            assert(over@.take(i + 1).drop_last() =~= over@.take(i as int));
            assert(over@.take(i + 1).last() == over@[i as int]);
        }
        r.insert(over.items[i].0.clone(), over.items[i].1.clone());
        i += 1;
    }
    assert(over@.take(over@.len() as int) =~= over@);
    r
}

/// Whether all rows hold well-formed models.
pub open spec fn models_wf(rows: Seq<(Seq<char>, ModelCfg)>) -> bool {
    forall|i: int| 0 <= i < rows.len() ==> (#[trigger] rows[i]).1.wf()
}

/// What a verb letter may be bound to: any upper-case letter that is not
/// native, and the replaceable natives with an explicit override.
pub open spec fn verb_allowed(verb: Seq<char>, override_native: bool) -> bool {
    &&& verb.len() == 1
    &&& is_upper(verb[0])
    &&& !NATIVE_VERBS@.contains(verb[0]) || (override_native && OVERRIDABLE_VERBS@.contains(
        verb[0],
    ))
}

/// Whether `c` stands in `s`.
pub fn has_char(s: &str, c: char) -> (r: bool)
    ensures
        r == s@.contains(c),
{
    let v = text::chars_of(s);
    let mut i: usize = 0;
    while i < v.len()
        invariant
            i <= v@.len(),
            v@ == s@,
            forall|k: int| 0 <= k < i ==> v@[k] != c,
        decreases v@.len() - i,
    {
        if v[i] == c {
            assert(s@[i as int] == c);
            return true;
        }
        i += 1;
    }
    false
}

/// Whether a tool may have this verb.
pub fn verb_ok(verb: &str, override_native: bool) -> (r: bool)
    ensures
        r == verb_allowed(verb@, override_native),
{
    let v = text::chars_of(verb);
    if v.len() != 1 || v[0] < 'A' || v[0] > 'Z' {
        return false;
    }
    !has_char(NATIVE_VERBS, v[0]) || (override_native && has_char(OVERRIDABLE_VERBS, v[0]))
}

/// The first tool, from row `i` on, whose verb is not allowed.
pub open spec fn bad_tool(rows: Seq<(Seq<char>, ToolCfg)>, i: int) -> Option<Seq<char>>
    decreases rows.len() - i,
{
    if 0 <= i < rows.len() {
        if verb_allowed(rows[i].0, rows[i].1.override_native) {
            bad_tool(rows, i + 1)
        } else {
            Some(rows[i].0)
        }
    } else {
        None
    }
}

/// What is said of a tool whose verb is not allowed.
pub open spec fn bad_verb_msg(verb: Seq<char>) -> Seq<char> {
    "tool verb '"@ + verb + "' must be a single uppercase letter outside "@ + NATIVE_VERBS@
        + " (or one of "@ + OVERRIDABLE_VERBS@ + " with override = true)"@
}

/// What is said where there is no alternate model of that name.
pub open spec fn no_model_msg(name: Seq<char>, have: Seq<Seq<char>>) -> Seq<char> {
    "no [models."@ + name + "] in config (available: "@ + joined(have, ", "@) + ")"@
}

/// What is said where the model has no preset of that name.
pub open spec fn no_effort_msg(name: Seq<char>, have: Seq<Seq<char>>) -> Seq<char> {
    "no [model.effort."@ + name + "] for this model (available: "@ + joined(have, ", "@) + ")"@
}

impl Config {
    /// The tables stand in the order of their keys.
    pub open spec fn wf(self) -> bool {
        &&& self.models.wf()
        &&& self.tool.wf()
        &&& self.profile.wf()
        &&& self.model.wf()
        &&& models_wf(self.models@)
    }

    /// Whether everything but the model is as in `other`.
    pub open spec fn same_but_model(self, other: Config) -> bool {
        &&& self.models == other.models
        &&& self.context == other.context
        &&& self.tool == other.tool
        &&& self.profile == other.profile
        &&& self.distill == other.distill
        &&& self.execution == other.execution
        &&& self.plan == other.plan
        &&& self.verify == other.verify
        &&& self.prompt == other.prompt
        &&& self.mods_dir == other.mods_dir
        &&& self.prompt_extra == other.prompt_extra
        &&& self.mod_notes == other.mod_notes
    }

    /// The config a run actually uses: the named alternate model swapped in,
    /// then the chosen effort preset merged over `extra_body`. Both optional.
    pub fn effective(cfg: Config, model: &Option<String>, reason: &Option<String>) -> (r: Config)
        requires
            cfg.wf(),
        ensures
            r.same_but_model(cfg),
            r.model@ == with_effort(model_named(cfg, opt_text(*model)), opt_text(*reason)),
    {
        let mut c = cfg;
        if let Some(name) = model {
            if let Some(m) = c.models.get(name) {
                let chosen = m.copy();
                proof {
                    assert(models_wf(cfg.models@));
                }
                c.model = chosen;
            }
        }
        let ghost base = model_named(cfg, opt_text(*model));
        assert(c.model@ == base);
        if let Some(r) = reason {
            proof {
                lemma_presets_lookup(c.model.effort, r@, 0);
            }
            let frag = match c.model.effort.get(r) {
                Some(f) => Some(f.copy()),
                None => None,
            };
            if let Some(f) = frag {
                let old_body = match &c.model.extra_body {
                    Some(b) => b.copy(),
                    None => Table::new(),
                };
                proof {
                    assert(old_body.wf()) by {
                        if base.extra_body is Some {
                            lemma_effective_body_wf(cfg, opt_text(*model));
                        }
                    }
                }
                c.model.extra_body = Some(merge_fields(old_body, &f));
            }
        }
        c
    }

    /// Swaps in the model and the effort that were asked for by name, and
    /// refuses a name that is not configured.
    pub fn select(self, model: &Option<String>, effort: &Option<String>) -> (r: Result<
        Config,
        String,
    >)
        requires
            self.wf(),
        ensures
            match r {
                Ok(c) => {
                    &&& (*model) is Some ==> lookup(self.models@, ((*model)->0)@) is Some
                    &&& (*effort) is Some ==> lookup(
                        model_named(self, opt_text(*model)).effort,
                        ((*effort)->0)@,
                    ) is Some
                    &&& c.same_but_model(self)
                    &&& c.model@ == with_effort(
                        model_named(self, opt_text(*model)),
                        opt_text(*effort),
                    )
                },
                Err(e) => if (*model) is Some && lookup(self.models@, ((*model)->0)@) is None {
                    e@ == no_model_msg(((*model)->0)@, keys_in(self.models@))
                } else {
                    &&& (*effort) is Some
                    &&& lookup(model_named(self, opt_text(*model)).effort, ((*effort)->0)@) is None
                    &&& e@ == no_effort_msg(
                        ((*effort)->0)@,
                        keys_in(model_named(self, opt_text(*model)).effort),
                    )
                },
            },
    {
        if let Some(name) = model {
            if !self.models.contains_key(name) {
                let mut e = "no [models.".to_string();
                e.append(name);
                e.append("] in config (available: ");
                let have = text::join(&self.models.keys(), ", ");
                e.append(&have);
                e.append(")");
                return Err(e);
            }
        }
        if let Some(p) = effort {
            let m = match model {
                Some(name) => match self.models.get(name) {
                    Some(m) => m,
                    None => &self.model,
                },
                None => &self.model,
            };
            proof {
                lemma_presets_lookup(m.effort, p@, 0);
                assert(keys_in(presets(m.effort)) =~= keys_in(m.effort@));
            }
            if !m.effort.contains_key(p) {
                let mut e = "no [model.effort.".to_string();
                e.append(p);
                e.append("] for this model (available: ");
                let have = text::join(&m.effort.keys(), ", ");
                e.append(&have);
                e.append(")");
                return Err(e);
            }
        }
        Ok(Config::effective(self, model, effort))
    }

    /// Refuses a config with a tool whose verb is not allowed.
    pub fn check_verbs(&self) -> (r: Result<(), String>)
        ensures
            match r {
                Ok(_) => bad_tool(self.tool@, 0) is None,
                Err(e) => bad_tool(self.tool@, 0) is Some && e@ == bad_verb_msg(
                    bad_tool(self.tool@, 0)->0,
                ),
            },
    {
        let mut i: usize = 0;
        while i < self.tool.items.len()
            invariant
                i <= self.tool@.len(),
                bad_tool(self.tool@, 0) == bad_tool(self.tool@, i as int),
            decreases self.tool@.len() - i,
        {
            let verb = &self.tool.items[i].0;
            if !verb_ok(verb, self.tool.items[i].1.override_native) {
                let mut e = "tool verb '".to_string();
                e.append(verb);
                e.append("' must be a single uppercase letter outside ");
                e.append(NATIVE_VERBS);
                e.append(" (or one of ");
                e.append(OVERRIDABLE_VERBS);
                e.append(" with override = true)");
                return Err(e);
            }
            i += 1;
        }
        Ok(())
    }
}

proof fn lemma_effective_body_wf(cfg: Config, name: Option<Seq<char>>)
    requires
        cfg.wf(),
        model_named(cfg, name).extra_body is Some,
    ensures
        crate::table::in_order(keys_in(model_named(cfg, name).extra_body->0)),
{
    if name is Some {
        lemma_lookup_in_rows(cfg.models@, name->0, 0);
    }
}

proof fn lemma_lookup_in_rows(rows: Seq<(Seq<char>, ModelCfg)>, k: Seq<char>, i: int)
    requires
        0 <= i,
    ensures
        match crate::table::row_of(rows, k, i) {
            Some(j) => 0 <= j < rows.len(),
            None => true,
        },
    decreases rows.len() - i,
{
    if i < rows.len() && rows[i].0 != k {
        lemma_lookup_in_rows(rows, k, i + 1);
    }
}

proof fn lemma_merged(base: FieldsV, over: FieldsV, k: Seq<char>)
    requires
        crate::table::in_order(keys_in(base)),
        crate::table::in_order(keys_in(over)),
    ensures
        crate::table::in_order(keys_in(merged(base, over))),
        lookup(merged(base, over), k) == (match lookup(over, k) {
            Some(v) => Some(v),
            None => lookup(base, k),
        }),
    decreases over.len(),
{
    crate::table::lemma_row(over, k, 0);
    if over.len() > 0 {
        let front = over.drop_last();
        let (q, v) = over.last();
        assert(crate::table::in_order(keys_in(front))) by {
            assert forall|i: int, j: int| 0 <= i < j < keys_in(front).len() implies crate::table::precedes(
                #[trigger] keys_in(front)[i],
                #[trigger] keys_in(front)[j],
            ) by {
                assert(keys_in(front)[i] == keys_in(over)[i]);
                assert(keys_in(front)[j] == keys_in(over)[j]);
            }
        }
        lemma_merged(base, front, k);
        crate::table::put_sets_one_key(merged(base, front), q, v);
        crate::table::lemma_row(front, k, 0);
        crate::table::lemma_at_most_one(over, k);
        if k == q {
            assert(over[over.len() - 1].0 == k);
            assert(lookup(over, k) == Some(v));
        } else {
            match crate::table::row_of(over, k, 0) {
                Some(i) => {
                    assert(i < over.len() - 1);
                    assert(front[i].0 == k);
                    crate::table::lemma_at_most_one(front, k);
                },
                None => {
                    match crate::table::row_of(front, k, 0) {
                        Some(i) => {
                            assert(over[i].0 == k);
                        },
                        None => {},
                    }
                },
            }
        }
    }
}

/// The chosen effort wins over the model's own fields, key by key; every field
/// that it does not name stays, and so does everything else of the model. A
/// preset that the model does not have changes nothing.
pub proof fn the_effort_wins_key_by_key(m: ModelV, preset: Seq<char>, k: Seq<char>)
    requires
        m.extra_body is Some ==> crate::table::in_order(keys_in(m.extra_body->0)),
        lookup(m.effort, preset) is Some ==> crate::table::in_order(
            keys_in(lookup(m.effort, preset)->0),
        ),
    ensures
        lookup(m.effort, preset) is Some ==> {
            let now = with_effort(m, Some(preset));
            let chosen = lookup(m.effort, preset)->0;
            &&& now == (ModelV { extra_body: now.extra_body, ..m })
            &&& now.extra_body is Some
            &&& lookup(chosen, k) is Some ==> lookup(now.extra_body->0, k) == lookup(chosen, k)
            &&& lookup(chosen, k) is None ==> lookup(now.extra_body->0, k) == (match m.extra_body {
                Some(b) => lookup(b, k),
                None => None,
            })
        },
        lookup(m.effort, preset) is None ==> with_effort(m, Some(preset)) == m,
        with_effort(m, None) == m,
{
    if lookup(m.effort, preset) is Some {
        let chosen = lookup(m.effort, preset)->0;
        let base: FieldsV = match m.extra_body {
            Some(b) => b,
            None => Seq::empty(),
        };
        lemma_merged(base, chosen, k);
    }
}

/// A named model replaces the default; without a name, or with one that is not
/// configured, the default stays.
pub proof fn a_named_model_is_used(cfg: Config, name: Seq<char>)
    ensures
        lookup(cfg.models@, name) is Some ==> model_named(cfg, Some(name)) == (lookup(
            cfg.models@,
            name,
        )->0)@,
        lookup(cfg.models@, name) is None ==> model_named(cfg, Some(name)) == cfg.model@,
        model_named(cfg, None) == cfg.model@,
{
}

/// A tool may have any capital letter that the protocol leaves free. R, G, X, O
/// and V it may take over where it says so; E, I, N, S, D, A, P and B never, and
/// nothing that is not one capital letter.
pub proof fn verbs_that_tools_may_have(c: char, verb: Seq<char>, override_native: bool)
    requires
        'A' <= c <= 'Z',
    ensures
        c == 'R' || c == 'G' || c == 'X' || c == 'O' || c == 'V' ==> (verb_allowed(
            seq![c],
            override_native,
        ) <==> override_native),
        c == 'E' || c == 'I' || c == 'N' || c == 'S' || c == 'D' || c == 'A' || c == 'P' || c == 'B'
            ==> !verb_allowed(seq![c], override_native),
        c == 'C' || c == 'F' || c == 'H' || c == 'J' || c == 'K' || c == 'L' || c == 'M' || c == 'Q'
            || c == 'T' || c == 'U' || c == 'W' || c == 'Y' || c == 'Z' ==> verb_allowed(
            seq![c],
            override_native,
        ),
        verb.len() != 1 ==> !verb_allowed(verb, override_native),
        verb.len() == 1 && !('A' <= verb[0] <= 'Z') ==> !verb_allowed(verb, override_native),
{
    reveal_strlit("REIGNXADVSOPB");
    reveal_strlit("RGXOV");
    let n = NATIVE_VERBS@;
    let o = OVERRIDABLE_VERBS@;
    assert(n[0] == 'R' && n[1] == 'E' && n[2] == 'I' && n[3] == 'G' && n[4] == 'N' && n[5] == 'X'
        && n[6] == 'A' && n[7] == 'D' && n[8] == 'V' && n[9] == 'S' && n[10] == 'O' && n[11] == 'P'
        && n[12] == 'B');
    assert(o[0] == 'R' && o[1] == 'G' && o[2] == 'X' && o[3] == 'O' && o[4] == 'V');
    assert(seq![c][0] == c);
}

/// A config passes exactly when every tool may have its verb, and it is the
/// first one that may not which is named.
pub proof fn every_verb_is_checked(rows: Seq<(Seq<char>, ToolCfg)>, i: int)
    requires
        0 <= i,
    ensures
        bad_tool(rows, i) is None <==> forall|k: int|
            i <= k < rows.len() ==> verb_allowed(
                (#[trigger] rows[k]).0,
                rows[k].1.override_native,
            ),
        bad_tool(rows, i) matches Some(v) ==> exists|k: int|
            i <= k < rows.len() && (#[trigger] rows[k]).0 == v && !verb_allowed(
                v,
                rows[k].1.override_native,
            ),
    decreases rows.len() - i,
{
    if i < rows.len() {
        every_verb_is_checked(rows, i + 1);
        let first = rows[i];
    }
}

/// A refusal names what was asked for and what there is.
pub proof fn refusals_name_what_is_missing(name: Seq<char>, have: Seq<Seq<char>>)
    ensures
        text::holds(bad_verb_msg(name), name),
        text::holds(no_model_msg(name, have), name),
        text::holds(no_model_msg(name, have), joined(have, ", "@)),
        text::holds(no_effort_msg(name, have), name),
        text::holds(no_effort_msg(name, have), joined(have, ", "@)),
{
    let list = joined(have, ", "@);
    let a = bad_verb_msg(name);
    lemma_held(
        "tool verb '"@,
        name,
        "' must be a single uppercase letter outside "@ + NATIVE_VERBS@ + " (or one of "@
            + OVERRIDABLE_VERBS@ + " with override = true)"@,
    );
    assert(a =~= "tool verb '"@ + name + ("' must be a single uppercase letter outside "@
        + NATIVE_VERBS@ + " (or one of "@ + OVERRIDABLE_VERBS@ + " with override = true)"@));
    let b = no_model_msg(name, have);
    lemma_held("no [models."@, name, "] in config (available: "@ + list + ")"@);
    assert(b =~= "no [models."@ + name + ("] in config (available: "@ + list + ")"@));
    lemma_held("no [models."@ + name + "] in config (available: "@, list, ")"@);
    let c = no_effort_msg(name, have);
    lemma_held("no [model.effort."@, name, "] for this model (available: "@ + list + ")"@);
    assert(c =~= "no [model.effort."@ + name + ("] for this model (available: "@ + list + ")"@));
    lemma_held("no [model.effort."@ + name + "] for this model (available: "@, list, ")"@);
}

proof fn lemma_held(a: Seq<char>, b: Seq<char>, c: Seq<char>)
    ensures
        text::holds(a + b + c, b),
{
    let s = a + b + c;
    text::found_where_it_first_stands(s, b, 0);
    assert(s.skip(a.len() as int).take(b.len() as int) =~= b);
}

} // verus!
