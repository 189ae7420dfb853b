//! Folder mods: drop a directory into the mods dir and haste grows new verbs.
//!
//!   ~/.haste/mods/
//!     mcp/
//!       mod.toml      <- manifest: tools, prompt injection, env
//!       bridge.py     <- the mod's own code, any language
//!
//! mod.toml:
//!   name = "mcp"
//!   prompt = "extra system-prompt lines the mod needs"
//!   [env]                      # exported to every tool call of this mod
//!   MCP_SERVERS = "..."
//!   [tool.M]                   # same schema as [tool.*] in haste.toml
//!   desc = "call an MCP tool"
//!   cmd  = "python {mod}/bridge.py {args}"   # {mod} = the mod's folder
//!
//! The harness stays dumb: a mod's tool is a process invocation. Mods that
//! need persistent state run their own daemon and talk to it — their
//! business, not the harness's.

use crate::config;
use crate::config::bad_tool;
use crate::config::bad_verb_msg;
use crate::config::verb_allowed;
use crate::config::Config;
use crate::config::ToolCfg;
use crate::config::NATIVE_VERBS;
use crate::table::in_order;
use crate::table::keys_in;
use crate::table::lemma_put_mapped;
use crate::table::lookup;
use crate::table::put;
use crate::table::put_sets_one_key;
use crate::table::row_of;
use crate::table::text_rows;
use crate::table::with_values;
use crate::table::Table;
use crate::text;
use crate::text::joined;
use crate::text::opt_text;
use crate::text::replaced;
use crate::text::stripped;
use crate::text::swapped;
use crate::text::texts;
use crate::text::trimmed;
use crate::tools::clip;
use crate::tools::clipped;
use vstd::prelude::*;

verus! {

/// What a mod.toml says.
pub struct Manifest {
    pub name: String,
    pub prompt: String,
    pub env: Table<String>,
    pub tool: Table<ToolCfg>,
}

/// A mod that was found.
pub struct Mod {
    /// Its folder.
    pub path: String,
    /// Its manifest, or why that cannot be read.
    pub manifest: Result<Manifest, String>,
}

/// What a tool of a config says.
#[verifier::ext_equal]
pub struct ToolV {
    pub desc: Seq<char>,
    pub cmd: Seq<char>,
    pub prune: Option<Seq<char>>,
    pub timeout_ms: Option<u64>,
    pub env: Seq<(Seq<char>, Seq<char>)>,
    pub override_native: bool,
    pub poll: bool,
}

impl View for ToolCfg {
    type V = ToolV;

    open spec fn view(&self) -> ToolV {
        ToolV {
            desc: self.desc@,
            cmd: self.cmd@,
            prune: opt_text(self.prune),
            timeout_ms: self.timeout_ms,
            env: text_rows(self.env@),
            override_native: self.override_native,
            poll: self.poll,
        }
    }
}

/// A table of tools.
pub open spec fn tool_rows(rows: Seq<(Seq<char>, ToolCfg)>) -> Seq<(Seq<char>, ToolV)> {
    with_values(rows, |t: ToolCfg| t@)
}

/// The environment of a tool with the first `n` settings of its mod.
pub open spec fn merged_env(
    env: Seq<(Seq<char>, Seq<char>)>,
    own: Seq<(Seq<char>, Seq<char>)>,
    n: int,
) -> Seq<(Seq<char>, Seq<char>)>
    decreases n,
{
    if n <= 0 {
        env
    } else {
        put(merged_env(env, own, n - 1), own[n - 1].0, own[n - 1].1)
    }
}

/// A mod's tool as it is added: it knows its folder and gets the mod's
/// settings.
pub open spec fn adopted(t: ToolV, path: Seq<char>, env: Seq<(Seq<char>, Seq<char>)>) -> ToolV {
    ToolV {
        cmd: replaced(t.cmd, "{mod}"@, path),
        env: merged_env(t.env, env, env.len() as int),
        ..t
    }
}

/// What loading mods changes, and what is told of it.
#[verifier::ext_equal]
pub struct ModsV {
    pub tools: Seq<(Seq<char>, ToolV)>,
    pub extra: Seq<char>,
    pub notes: Seq<Seq<char>>,
}

pub open spec fn told(st: ModsV, note: Seq<char>) -> ModsV {
    ModsV { notes: st.notes.push(note), ..st }
}

pub open spec fn invalid_note(label: Seq<char>, verb: Seq<char>) -> Seq<char> {
    "mod "@ + label + ": tool '"@ + verb + "' invalid (single uppercase letter outside "@
        + NATIVE_VERBS@ + ")"@
}

pub open spec fn taken_note(label: Seq<char>, verb: Seq<char>) -> Seq<char> {
    "mod "@ + label + ": tool '"@ + verb + "' already taken — skipped"@
}

/// The state after the first `n` tools of a mod, and the verbs that were
/// added. A verb that is not allowed, or already taken, is skipped.
pub open spec fn tools_added(
    st: ModsV,
    label: Seq<char>,
    path: Seq<char>,
    env: Seq<(Seq<char>, Seq<char>)>,
    tools: Seq<(Seq<char>, ToolV)>,
    n: int,
) -> (ModsV, Seq<Seq<char>>)
    decreases n,
{
    if n <= 0 {
        (st, Seq::empty())
    } else {
        let (st1, verbs) = tools_added(st, label, path, env, tools, n - 1);
        let (verb, tool) = tools[n - 1];
        if !verb_allowed(verb, tool.override_native) {
            (told(st1, invalid_note(label, verb)), verbs)
        } else if lookup(st1.tools, verb) is Some {
            (told(st1, taken_note(label, verb)), verbs)
        } else {
            (
                ModsV { tools: put(st1.tools, verb, adopted(tool, path, env)), ..st1 },
                verbs.push(verb),
            )
        }
    }
}

/// What a manifest says.
pub struct ManifestV {
    pub name: Seq<char>,
    pub prompt: Seq<char>,
    pub env: Seq<(Seq<char>, Seq<char>)>,
    pub tool: Seq<(Seq<char>, ToolV)>,
}

impl View for Manifest {
    type V = ManifestV;

    open spec fn view(&self) -> ManifestV {
        ManifestV {
            name: self.name@,
            prompt: self.prompt@,
            env: text_rows(self.env@),
            tool: tool_rows(self.tool@),
        }
    }
}

pub open spec fn skipped_note(name: Seq<char>, why: Seq<char>) -> Seq<char> {
    "mod "@ + name + ": SKIPPED — "@ + clipped(why, 120)
}

pub open spec fn loaded_note(label: Seq<char>, verbs: Seq<Seq<char>>) -> Seq<char> {
    "mod "@ + label + ": loaded ("@ + (if verbs.len() == 0 {
        "prompt only"@
    } else {
        joined(verbs, ","@)
    }) + ")"@
}

/// The state after a mod whose manifest could be read.
pub open spec fn manifest_applied(st: ModsV, name: Seq<char>, path: Seq<char>, m: ManifestV) -> ModsV {
    let label = if m.name.len() == 0 {
        name
    } else {
        m.name
    };
    let folder = swapped(path, '\\', '/');
    let (st1, verbs) = tools_added(st, label, folder, m.env, m.tool, m.tool.len() as int);
    let prompt = trimmed(m.prompt);
    let st2 = if prompt.len() > 0 {
        ModsV { extra: st1.extra + prompt + "\n"@, ..st1 }
    } else {
        st1
    };
    told(st2, loaded_note(label, verbs))
}

/// The state after one mod.
pub open spec fn mod_applied(st: ModsV, name: Seq<char>, m: Mod) -> ModsV {
    match m.manifest {
        Ok(f) => manifest_applied(st, name, m.path@, f@),
        Err(e) => told(st, skipped_note(name, e@)),
    }
}

/// The state after the first `n` mods, in the order of their names.
pub open spec fn mods_applied(st: ModsV, mods: Seq<(Seq<char>, Mod)>, n: int) -> ModsV
    decreases n,
{
    if n <= 0 {
        st
    } else {
        mod_applied(mods_applied(st, mods, n - 1), mods[n - 1].0, mods[n - 1].1)
    }
}

/// What a config is to mods.
pub open spec fn mods_state(cfg: Config, notes: Seq<String>) -> ModsV {
    ModsV { tools: tool_rows(cfg.tool@), extra: cfg.prompt_extra@, notes: texts(notes) }
}

/// Whether two configs differ at most in what mods may change.
pub open spec fn same_but_mods(a: Config, b: Config) -> bool {
    b == (Config { tool: b.tool, prompt_extra: b.prompt_extra, ..a })
}

fn tell(notes: &mut Vec<String>, t: String)
    ensures
        texts(final(notes)@) == texts(old(notes)@).push(t@),
{
    proof {
        text::lemma_texts_push(notes@, t);
    }
    notes.push(t);
}

fn adopt(tool: ToolCfg, path: &str, env: &Table<String>) -> (r: ToolCfg)
    requires
        tool.env.wf(),
    ensures
        r@ == adopted(tool@, path@, text_rows(env@)),
{
    let mut tool = tool;
    let ghost t0 = tool@;
    let cmd = text::replace(&tool.cmd, "{mod}", path);
    tool.cmd = cmd;
    let ghost own = text_rows(env@);
    let mut i: usize = 0;
    while i < env.items.len()
        invariant
            i <= env.items@.len(),
            own == text_rows(env@),
            tool.env.wf(),
            tool@ == (ToolV {
                cmd: replaced(t0.cmd, "{mod}"@, path@),
                env: merged_env(t0.env, own, i as int),
                ..t0
            }),
        decreases env.items@.len() - i,
    {
        assert(env@[i as int] == (env.items@[i as int].0@, env.items@[i as int].1));
        assert(own[i as int] == (env.items@[i as int].0@, env.items@[i as int].1@));
        let k = env.items[i].0.clone();
        let v = env.items[i].1.clone();
        proof {
            lemma_put_mapped(tool.env@, |s: String| s@, k@, v);
        }
        tool.env.insert(k, v);
        i = i + 1;
    }
    assert(own.len() == env.items@.len());
    tool
}

/// The tools of a manifest can be merged: their settings are in order.
pub open spec fn mergeable(rows: Seq<(Seq<char>, ToolCfg)>) -> bool {
    forall|i: int| 0 <= i < rows.len() ==> (#[trigger] rows[i]).1.env.wf()
}

fn add_tools(
    cfg: &mut Config,
    notes: &mut Vec<String>,
    label: &str,
    path: &str,
    env: &Table<String>,
    tools: Table<ToolCfg>,
) -> (verbs: Vec<String>)
    requires
        old(cfg).tool.wf(),
        mergeable(tools@),
    ensures
        final(cfg).tool.wf(),
        same_but_mods(*old(cfg), *final(cfg)),
        (mods_state(*final(cfg), final(notes)@), texts(verbs@)) == tools_added(
            mods_state(*old(cfg), old(notes)@),
            label@,
            path@,
            text_rows(env@),
            tool_rows(tools@),
            tools@.len() as int,
        ),
{
    let ghost st0 = mods_state(*cfg, notes@);
    let ghost all = tool_rows(tools@);
    let ghost total = tools@.len() as int;
    let mut verbs: Vec<String> = Vec::new();
    let mut rest = tools.items;
    let ghost mut k: int = 0;
    assert(texts(verbs@) =~= Seq::<Seq<char>>::empty());
    assert forall|i: int| 0 <= i < rest@.len() implies all[i] == (
        (#[trigger] rest@[i]).0@,
        rest@[i].1@,
    ) && rest@[i].1.env.wf() by {
        assert(tools@[i] == (rest@[i].0@, rest@[i].1));
    }
    while rest.len() > 0
        invariant
            0 <= k,
            k + rest@.len() == total,
            all.len() == total,
            cfg.tool.wf(),
            same_but_mods(*old(cfg), *cfg),
            forall|i: int|
                0 <= i < rest@.len() ==> all[k + i] == ((#[trigger] rest@[i]).0@, rest@[i].1@)
                    && rest@[i].1.env.wf(),
            (mods_state(*cfg, notes@), texts(verbs@)) == tools_added(
                st0,
                label@,
                path@,
                text_rows(env@),
                all,
                k,
            ),
        decreases rest@.len(),
    {
        let ghost before = rest@;
        assert(all[k] == (before[0].0@, before[0].1@));
        let (verb, tool) = rest.remove(0);
        proof {
            assert forall|i: int| 0 <= i < rest@.len() implies all[k + 1 + i] == (
                (#[trigger] rest@[i]).0@,
                rest@[i].1@,
            ) && rest@[i].1.env.wf() by {
                assert(rest@[i] == before[i + 1]);
            }
            lemma_lookup_mapped(cfg.tool@, |t: ToolCfg| t@, verb@);
        }
        if !config::verb_ok(&verb, tool.override_native) {
            let mut t = "mod ".to_string();
            t.append(label);
            t.append(": tool '");
            t.append(&verb);
            t.append("' invalid (single uppercase letter outside ");
            t.append(NATIVE_VERBS);
            t.append(")");
            tell(notes, t);
        } else if cfg.tool.contains_key(&verb) {
            let mut t = "mod ".to_string();
            t.append(label);
            t.append(": tool '");
            t.append(&verb);
            t.append("' already taken — skipped");
            tell(notes, t);
        } else {
            let ghost rows0 = cfg.tool@;
            let own = adopt(tool, path, env);
            proof {
                text::lemma_texts_push(verbs@, verb);
                lemma_put_mapped(rows0, |t: ToolCfg| t@, verb@, own);
            }
            verbs.push(verb.clone());
            cfg.tool.insert(verb, own);
        }
        proof {
            k = k + 1;
        }
    }
    verbs
}

proof fn lemma_row_mapped<V, W>(
    rows: Seq<(Seq<char>, V)>,
    f: spec_fn(V) -> W,
    k: Seq<char>,
    i: int,
)
    requires
        0 <= i <= rows.len(),
    ensures
        row_of(with_values(rows, f), k, i) == row_of(rows, k, i),
    decreases rows.len() - i,
{
    if i < rows.len() {
        assert(with_values(rows, f)[i].0 == rows[i].0);
        lemma_row_mapped(rows, f, k, i + 1);
    }
}

proof fn lemma_lookup_mapped<V, W>(rows: Seq<(Seq<char>, V)>, f: spec_fn(V) -> W, k: Seq<char>)
    ensures
        lookup(with_values(rows, f), k) is Some == lookup(rows, k) is Some,
{
    lemma_row_mapped(rows, f, k, 0);
}

fn apply_manifest(
    cfg: &mut Config,
    notes: &mut Vec<String>,
    name: &str,
    path: &str,
    m: Manifest,
)
    requires
        old(cfg).tool.wf(),
        mergeable(m.tool@),
    ensures
        final(cfg).tool.wf(),
        same_but_mods(*old(cfg), *final(cfg)),
        mods_state(*final(cfg), final(notes)@) == manifest_applied(
            mods_state(*old(cfg), old(notes)@),
            name@,
            path@,
            m@,
        ),
{
    let Manifest { name: own_name, prompt, env, tool } = m;
    let label = if text::empty(&own_name) {
        name.to_owned()
    } else {
        own_name
    };
    let folder = text::replace_char(path, '\\', '/');
    let ghost rows = tool_rows(tool@);
    assert(rows.len() == tool@.len());
    let verbs = add_tools(cfg, notes, &label, &folder, &env, tool);
    let extra = text::trim(&prompt);
    if !text::empty(&extra) {
        cfg.prompt_extra.append(&extra);
        cfg.prompt_extra.append("\n");
    }
    let mut t = "mod ".to_string();
    t.append(&label);
    t.append(": loaded (");
    assert(texts(verbs@).len() == verbs@.len());
    let list = if verbs.len() == 0 {
        "prompt only".to_string()
    } else {
        text::join(&verbs, ",")
    };
    t.append(&list);
    t.append(")");
    tell(notes, t);
}

/// Whether all manifests can be merged.
pub open spec fn all_mergeable(mods: Seq<(Seq<char>, Mod)>) -> bool {
    forall|i: int|
        0 <= i < mods.len() && (#[trigger] mods[i]).1.manifest is Ok ==> mergeable(
            (mods[i].1.manifest->Ok_0).tool@,
        )
}

/// Merges every mod's tools and prompt into the config. Returns human-readable
/// notes (loads and skips).
pub fn apply(cfg: &mut Config, mods: Table<Mod>) -> (notes: Vec<String>)
    requires
        old(cfg).tool.wf(),
        all_mergeable(mods@),
    ensures
        final(cfg).tool.wf(),
        same_but_mods(*old(cfg), *final(cfg)),
        mods_state(*final(cfg), notes@) == mods_applied(
            mods_state(*old(cfg), Seq::empty()),
            mods@,
            mods@.len() as int,
        ),
{
    let mut notes: Vec<String> = Vec::new();
    let ghost st0 = mods_state(*cfg, notes@);
    let ghost all = mods@;
    let mut rest = mods.items;
    let ghost mut k: int = 0;
    assert forall|i: int| 0 <= i < rest@.len() implies all[i] == (
        (#[trigger] rest@[i]).0@,
        rest@[i].1,
    ) by {}
    while rest.len() > 0
        invariant
            0 <= k,
            k + rest@.len() == all.len(),
            all_mergeable(all),
            cfg.tool.wf(),
            same_but_mods(*old(cfg), *cfg),
            forall|i: int|
                0 <= i < rest@.len() ==> all[k + i] == ((#[trigger] rest@[i]).0@, rest@[i].1),
            mods_state(*cfg, notes@) == mods_applied(st0, all, k),
        decreases rest@.len(),
    {
        let ghost before = rest@;
        assert(all[k] == (before[0].0@, before[0].1));
        let (name, m) = rest.remove(0);
        proof {
            assert forall|i: int| 0 <= i < rest@.len() implies all[k + 1 + i] == (
                (#[trigger] rest@[i]).0@,
                rest@[i].1,
            ) by {
                assert(rest@[i] == before[i + 1]);
            }
        }
        match m.manifest {
            Ok(f) => {
                apply_manifest(cfg, &mut notes, &name, &m.path, f);
            },
            Err(e) => {
                let mut t = "mod ".to_string();
                t.append(&name);
                t.append(": SKIPPED — ");
                let why = clip(&e, 120);
                t.append(&why);
                tell(&mut notes, t);
            },
        }
        proof {
            k = k + 1;
        }
    }
    notes
}

/// The first tool, from row `i` on, whose verb is not allowed.
pub open spec fn bad_row(rows: Seq<(Seq<char>, ToolV)>, i: int) -> Option<Seq<char>>
    decreases rows.len() - i,
{
    if i < 0 || i >= rows.len() {
        None
    } else if !verb_allowed(rows[i].0, rows[i].1.override_native) {
        Some(rows[i].0)
    } else {
        bad_row(rows, i + 1)
    }
}

proof fn lemma_bad_row(rows: Seq<(Seq<char>, ToolCfg)>, i: int)
    requires
        0 <= i <= rows.len(),
    ensures
        bad_row(tool_rows(rows), i) == bad_tool(rows, i),
    decreases rows.len() - i,
{
    if i < rows.len() {
        assert(tool_rows(rows)[i] == (rows[i].0, rows[i].1@));
        lemma_bad_row(rows, i + 1);
    }
}

pub open spec fn default_note(base_url: Seq<char>, home: Seq<char>) -> Seq<char> {
    "no config found — using built-in default ("@ + base_url + "). Run `haste init` to create "@
        + home
}

/// Completes a config that was read: mods are merged in, the user is told
/// where no config was found, and a tool with a verb of its own that is not
/// allowed is refused.
pub fn complete(cfg: Config, mods: Table<Mod>, found: bool, home: &str) -> (r: Result<
    Config,
    String,
>)
    requires
        cfg.tool.wf(),
        all_mergeable(mods@),
    ensures
        ({
            let st = mods_applied(mods_state(cfg, Seq::empty()), mods@, mods@.len() as int);
            match bad_row(st.tools, 0) {
                Some(verb) => r matches Err(e) && e@ == bad_verb_msg(verb),
                None => r matches Ok(c) && c.tool.wf() && c == (Config {
                    tool: c.tool,
                    prompt_extra: c.prompt_extra,
                    mod_notes: c.mod_notes,
                    ..cfg
                }) && mods_state(c, c.mod_notes@) == (if found {
                    st
                } else {
                    ModsV {
                        notes: seq![default_note(cfg.model.base_url@, home@)] + st.notes,
                        ..st
                    }
                }),
            }
        }),
{
    let mut cfg = cfg;
    let mut notes = apply(&mut cfg, mods);
    let ghost told_notes = texts(notes@);
    if !found {
        let mut t = "no config found — using built-in default (".to_string();
        t.append(&cfg.model.base_url);
        t.append("). Run `haste init` to create ");
        t.append(home);
        notes.insert(0, t);
        assert(texts(notes@) =~= seq![t@] + told_notes);
    }
    cfg.mod_notes = notes;
    proof {
        lemma_bad_row(cfg.tool@, 0);
    }
    match cfg.check_verbs() {
        Ok(()) => Ok(cfg),
        Err(e) => Err(e),
    }
}

/// What follows the home directory in a path that starts with `~`.
pub open spec fn under_home(path: Seq<char>) -> Option<Seq<char>> {
    match stripped(path, "~/"@) {
        Some(rest) => Some(rest),
        None => stripped(path, "~\\"@),
    }
}

/// What follows the home directory in a path that starts with `~`; `None` for
/// any other path.
pub fn home_relative(path: &str) -> (r: Option<String>)
    ensures
        opt_text(r) == under_home(path@),
{
    match text::strip_prefix(path, "~/") {
        Some(rest) => Some(rest),
        None => text::strip_prefix(path, "~\\"),
    }
}

// ---------------------------------------------------------------------------
// Laws
// ---------------------------------------------------------------------------

proof fn lemma_tools_keep(
    st: ModsV,
    label: Seq<char>,
    path: Seq<char>,
    env: Seq<(Seq<char>, Seq<char>)>,
    tools: Seq<(Seq<char>, ToolV)>,
    n: int,
    k: Seq<char>,
)
    requires
        in_order(keys_in(st.tools)),
        lookup(st.tools, k) is Some,
    ensures
        in_order(keys_in(tools_added(st, label, path, env, tools, n).0.tools)),
        lookup(tools_added(st, label, path, env, tools, n).0.tools, k) == lookup(st.tools, k),
    decreases n,
{
    if n > 0 {
        lemma_tools_keep(st, label, path, env, tools, n - 1, k);
        let st1 = tools_added(st, label, path, env, tools, n - 1).0;
        put_sets_one_key(st1.tools, tools[n - 1].0, adopted(tools[n - 1].1, path, env));
    }
}

/// Mods only add: whatever they declare, a tool that was there before keeps
/// its verb and stays as it was.
pub proof fn mods_never_replace_a_tool(
    st: ModsV,
    mods: Seq<(Seq<char>, Mod)>,
    n: int,
    k: Seq<char>,
)
    requires
        in_order(keys_in(st.tools)),
        lookup(st.tools, k) is Some,
    ensures
        in_order(keys_in(mods_applied(st, mods, n).tools)),
        lookup(mods_applied(st, mods, n).tools, k) == lookup(st.tools, k),
    decreases n,
{
    if n > 0 {
        mods_never_replace_a_tool(st, mods, n - 1, k);
        let st1 = mods_applied(st, mods, n - 1);
        let m = mods[n - 1].1;
        if m.manifest is Ok {
            let f = (m.manifest->Ok_0)@;
            let label = if f.name.len() == 0 {
                mods[n - 1].0
            } else {
                f.name
            };
            lemma_tools_keep(
                st1,
                label,
                swapped(m.path@, '\\', '/'),
                f.env,
                f.tool,
                f.tool.len() as int,
                k,
            );
        }
    }
}

proof fn lemma_merged_env(
    env: Seq<(Seq<char>, Seq<char>)>,
    own: Seq<(Seq<char>, Seq<char>)>,
    n: int,
    k: Seq<char>,
)
    requires
        0 <= n <= own.len(),
        in_order(keys_in(env)),
    ensures
        in_order(keys_in(merged_env(env, own, n))),
        (forall|i: int| 0 <= i < n ==> (#[trigger] own[i]).0 != k) ==> lookup(
            merged_env(env, own, n),
            k,
        ) == lookup(env, k),
    decreases n,
{
    if n > 0 {
        lemma_merged_env(env, own, n - 1, k);
        put_sets_one_key(merged_env(env, own, n - 1), own[n - 1].0, own[n - 1].1);
    }
}

proof fn lemma_merged_env_has(
    env: Seq<(Seq<char>, Seq<char>)>,
    own: Seq<(Seq<char>, Seq<char>)>,
    n: int,
    i: int,
)
    requires
        0 <= i < n <= own.len(),
        in_order(keys_in(env)),
        forall|j: int| i < j < own.len() ==> (#[trigger] own[j]).0 != own[i].0,
    ensures
        lookup(merged_env(env, own, n), own[i].0) == Some(own[i].1),
    decreases n,
{
    lemma_merged_env(env, own, n - 1, own[i].0);
    put_sets_one_key(merged_env(env, own, n - 1), own[n - 1].0, own[n - 1].1);
    if i < n - 1 {
        lemma_merged_env_has(env, own, n - 1, i);
    }
}

/// A mod's tool gets every setting of its mod, which wins over the tool's own of
/// that name; the tool's other settings stay, and so does what it says of
/// itself.
pub proof fn a_mods_settings_win(
    t: ToolV,
    path: Seq<char>,
    env: Seq<(Seq<char>, Seq<char>)>,
    i: int,
    k: Seq<char>,
)
    requires
        in_order(keys_in(t.env)),
        0 <= i < env.len(),
        forall|j: int| i < j < env.len() ==> (#[trigger] env[j]).0 != env[i].0,
    ensures
        lookup(adopted(t, path, env).env, env[i].0) == Some(env[i].1),
        (forall|j: int| 0 <= j < env.len() ==> (#[trigger] env[j]).0 != k) ==> lookup(
            adopted(t, path, env).env,
            k,
        ) == lookup(t.env, k),
        adopted(t, path, env) == (ToolV {
            cmd: adopted(t, path, env).cmd,
            env: adopted(t, path, env).env,
            ..t
        }),
{
    lemma_merged_env_has(t.env, env, env.len() as int, i);
    lemma_merged_env(t.env, env, env.len() as int, k);
}

/// A mod's tool knows its folder: in its command the place for it is filled in.
pub proof fn a_mods_command_knows_its_folder(
    t: ToolV,
    before: Seq<char>,
    after: Seq<char>,
    path: Seq<char>,
    env: Seq<(Seq<char>, Seq<char>)>,
)
    requires
        t.cmd == before + "{mod}"@ + after,
        !before.contains('{'),
        !after.contains('{'),
    ensures
        adopted(t, path, env).cmd == before + path + after,
{
    reveal_strlit("{mod}");
    let p = "{mod}"@;
    assert(p[0] == '{');
    text::replacing_touches_the_occurrences(before, p, after, path);
    text::replacing_touches_the_occurrences(after, p, before, path);
    let s = before + p + after;
    assert forall|k: int| 0 <= k < before.len() implies !text::occurs_at(s, p, k) by {
        if text::occurs_at(s, p, k) {
            assert(s.subrange(k, k + p.len())[0] == s[k]);
            assert(s[k] == before[k]);
            assert(before.contains('{'));
        }
    }
    assert forall|k: int| !text::occurs_at(after, p, k) by {
        if text::occurs_at(after, p, k) {
            assert(after.subrange(k, k + p.len())[0] == after[k]);
            assert(after.contains('{'));
        }
    }
}

/// A tool of a mod is added exactly where its verb is one that tools may have and
/// nobody has yet; otherwise it is skipped, with a note, and nothing else
/// changes.
pub proof fn a_free_verb_is_added(
    st: ModsV,
    label: Seq<char>,
    path: Seq<char>,
    env: Seq<(Seq<char>, Seq<char>)>,
    verb: Seq<char>,
    tool: ToolV,
)
    requires
        in_order(keys_in(st.tools)),
    ensures
        ({
            let (after, verbs) = tools_added(st, label, path, env, seq![(verb, tool)], 1);
            &&& verb_allowed(verb, tool.override_native) && lookup(st.tools, verb) is None ==> {
                &&& lookup(after.tools, verb) == Some(adopted(tool, path, env))
                &&& verbs == seq![verb]
                &&& after.notes == st.notes
            }
            &&& !verb_allowed(verb, tool.override_native) || lookup(st.tools, verb) is Some ==> {
                &&& after.tools == st.tools
                &&& verbs.len() == 0
                &&& after.notes.len() == st.notes.len() + 1
            }
        }),
{
    reveal_with_fuel(tools_added, 2);
    put_sets_one_key(st.tools, verb, adopted(tool, path, env));
    assert(Seq::<Seq<char>>::empty().push(verb) =~= seq![verb]);
}

/// A mod that cannot be read changes nothing but what the user is told; one that
/// can adds its prompt, on a line of its own.
pub proof fn a_mod_adds_its_prompt(st: ModsV, name: Seq<char>, m: Mod)
    ensures
        m.manifest is Err ==> mod_applied(st, name, m).tools == st.tools && mod_applied(
            st,
            name,
            m,
        ).extra == st.extra && mod_applied(st, name, m).notes.len() == st.notes.len() + 1,
        m.manifest is Ok && trimmed((m.manifest->Ok_0).prompt@).len() > 0 ==> mod_applied(
            st,
            name,
            m,
        ).extra == st.extra + trimmed((m.manifest->Ok_0).prompt@) + "\n"@,
        m.manifest is Ok && trimmed((m.manifest->Ok_0).prompt@).len() == 0 ==> mod_applied(
            st,
            name,
            m,
        ).extra == st.extra,
{
    if m.manifest is Ok {
        let f = (m.manifest->Ok_0)@;
        let label = if f.name.len() == 0 {
            name
        } else {
            f.name
        };
        lemma_tools_keep_extra(
            st,
            label,
            swapped(m.path@, '\\', '/'),
            f.env,
            f.tool,
            f.tool.len() as int,
        );
    }
}

proof fn lemma_tools_keep_extra(
    st: ModsV,
    label: Seq<char>,
    path: Seq<char>,
    env: Seq<(Seq<char>, Seq<char>)>,
    tools: Seq<(Seq<char>, ToolV)>,
    n: int,
)
    ensures
        tools_added(st, label, path, env, tools, n).0.extra == st.extra,
    decreases n,
{
    if n > 0 {
        lemma_tools_keep_extra(st, label, path, env, tools, n - 1);
    }
}

/// A path under the home directory starts with `~/` or `~\`; the rest is what lies
/// below. Every other path is taken as it is.
pub proof fn home_is_written_with_a_tilde(rest: Seq<char>, path: Seq<char>)
    ensures
        under_home(seq!['~', '/'] + rest) == Some(rest),
        under_home(seq!['~', '\\'] + rest) == Some(rest),
        path.len() < 2 || path[0] != '~' || (path[1] != '/' && path[1] != '\\') ==> under_home(path)
            is None,
{
    reveal_strlit("~/");
    reveal_strlit("~\\");
    let a = seq!['~', '/'] + rest;
    let b = seq!['~', '\\'] + rest;
    assert(a.subrange(0, 2) =~= "~/"@);
    assert(a.skip(2) =~= rest);
    assert(b.subrange(0, 2)[1] == '\\');
    assert("~/"@[1] == '/');
    assert(b.subrange(0, 2) =~= "~\\"@);
    assert(b.skip(2) =~= rest);
    if path.len() >= 2 {
        let p = path.subrange(0, 2);
        assert(p[0] == path[0] && p[1] == path[1]);
        assert("~\\"@[1] == '\\' && "~\\"@[0] == '~' && "~/"@[0] == '~');
    }
}

/// The first tool whose verb may not be had is the one that is refused; none is where
/// every verb may be had.
pub proof fn the_first_bad_verb_is_refused(rows: Seq<(Seq<char>, ToolV)>, i: int, k: int)
    requires
        0 <= i <= k <= rows.len(),
        forall|j: int|
            i <= j < k ==> verb_allowed((#[trigger] rows[j]).0, rows[j].1.override_native),
        k < rows.len() ==> !verb_allowed(rows[k].0, rows[k].1.override_native),
    ensures
        bad_row(rows, i) == (if k < rows.len() {
            Some(rows[k].0)
        } else {
            None
        }),
    decreases k - i,
{
    if i < k {
        assert(verb_allowed(rows[i].0, rows[i].1.override_native));
        the_first_bad_verb_is_refused(rows, i + 1, k);
    }
}

/// What is said without a config names the endpoint that is used and the file that
/// `init` would make.
pub proof fn the_default_is_announced(base_url: Seq<char>, home: Seq<char>)
    ensures
        text::holds(default_note(base_url, home), base_url),
        text::ends(default_note(base_url, home), home),
{
    let t = default_note(base_url, home);
    text::found_where_it_first_stands(t, base_url, 0);
    let k = "no config found — using built-in default ("@.len() as int;
    assert(t.skip(k).take(base_url.len() as int) =~= base_url);
    assert(t.subrange(t.len() - home.len(), t.len() as int) =~= home);
}

} // verus!
