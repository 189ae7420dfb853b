//! Whole runs: a scripted model talks to the run loop, and the work it asks
//! for is done on files that are held in memory.

use haste::agent::Ctl;
use haste::agent::Ev;
use haste::agent::Report;
use haste::bootstrap::workspace_state;
use haste::bootstrap::Dir;
use haste::bootstrap::Facts;
use haste::client::Flow;
use haste::client::Stream;
use haste::client::StreamStats;
use haste::config::Config;
use haste::config::CtxCfg;
use haste::config::DistillCfg;
use haste::config::ExecCfg;
use haste::config::ModelCfg;
use haste::config::PlanCfg;
use haste::config::ProfileCfg;
use haste::config::PromptCfg;
use haste::config::ThinkCfg;
use haste::config::ToolCfg;
use haste::config::VerifyCfg;
use haste::dsl::Cmd;
use haste::ledger::Kind;
use haste::ledger::CPT_MILLI;
use haste::plan::forgive_commas;
use haste::plan::Plan;
use haste::plan::PlanTick;
use haste::plan::Step;
use haste::session::verify_outcome;
use haste::session::Action;
use haste::session::Event;
use haste::session::PlanNews;
use haste::session::Run;
use haste::session::Session;
use haste::table::Table;
use haste::tools::shell_report;
use haste::tools::Found;
use haste::tools::ImageFound;
use haste::tools::Workspace;
use haste::turn::flat;
use haste::turn::plan_step;
use haste::turn::tool_call;
use haste::turn::tool_output;
use haste::turn::Todo;
use std::collections::BTreeMap;
use std::collections::VecDeque;
use std::time::Instant;

struct World {
    files: BTreeMap<String, String>,
    blobs: BTreeMap<String, Vec<u8>>,
    scripts: VecDeque<String>,
    /// Requests that fail before the script goes on.
    failures: usize,
    /// What the model was sent, and whether deliberation was on.
    sent: Vec<(String, bool)>,
    images: Vec<usize>,
    events: Vec<Ev>,
    inbox: Vec<String>,
}

fn world(scripts: &[&str]) -> World {
    let mut files = BTreeMap::new();
    files.insert("greet.txt".to_string(), "hello\nwrold\ngoodbye\n".to_string());
    World {
        files,
        blobs: BTreeMap::new(),
        scripts: scripts.iter().map(|s| s.to_string()).collect(),
        failures: 0,
        sent: Vec::new(),
        images: Vec::new(),
        events: Vec::new(),
        inbox: Vec::new(),
    }
}

fn base_cfg() -> Config {
    Config {
        model: ModelCfg {
            base_url: "http://127.0.0.1:9/v1".to_string(),
            model: "mock".to_string(),
            api_key_env: None,
            max_tokens: 32768,
            temperature: None,
            prefix_cache: true,
            extra_body: None,
            effort: Table::new(),
            think: None,
        },
        models: Table::new(),
        context: CtxCfg::default(),
        tool: Table::new(),
        profile: Table::new(),
        distill: DistillCfg::default(),
        execution: ExecCfg::for_os(false),
        plan: PlanCfg::default(),
        verify: VerifyCfg::default(),
        prompt: PromptCfg::default(),
        mods_dir: "~/.haste/mods".to_string(),
        prompt_extra: String::new(),
        mod_notes: Vec::new(),
    }
}

/// A working-set config with a small budget.
fn small_cfg() -> Config {
    let mut c = base_cfg();
    c.context.mode = "working_set".to_string();
    c.context.budget_tokens = 8000;
    c.context.max_turns = 10;
    c
}

/// A config without an orientation block.
fn bare_cfg() -> Config {
    let mut c = base_cfg();
    c.context.bootstrap = false;
    c
}

/// An append-mode config that compacts at ten tokens.
fn sealing_cfg() -> Config {
    let mut c = bare_cfg();
    c.context.mode = "append".to_string();
    c.context.budget_tokens = 10;
    c.context.compact = "model".to_string();
    c.context.compact_keep_last = 2;
    c
}

fn researcher(cfg: &mut Config) {
    let mut p = ProfileCfg::with_system("research".to_string());
    p.tools = "RGX".to_string();
    cfg.profile.insert("researcher".to_string(), p);
}

/// Streams the next scripted reply in chunks of seven characters.
fn stream(w: &mut World, on_delta: &mut dyn FnMut(&mut World, &str)) -> Result<StreamStats, String> {
    if w.failures > 0 {
        w.failures -= 1;
        return Err("connection refused".to_string());
    }
    let script = w.scripts.pop_front().unwrap_or_else(|| "D out of script\n".to_string());
    let (msg, usage) = match script.strip_prefix("USAGE:") {
        Some(rest) => {
            let (nums, m) = rest.split_once(':').unwrap();
            let (p, c) = nums.split_once(',').unwrap();
            (m.to_string(), (p.parse::<u64>().unwrap(), c.parse::<u64>().unwrap()))
        }
        None => (script.clone(), (100, 7)),
    };
    let (msg, finish) = match msg.strip_prefix("LENGTH:") {
        Some(m) => (m.to_string(), "length"),
        None => (msg.clone(), "stop"),
    };
    let chars: Vec<char> = msg.chars().collect();
    let mut lines = Vec::new();
    for chunk in chars.chunks(7) {
        let piece: String = chunk.iter().collect();
        let text = serde_json::to_string(&piece).unwrap();
        lines.push(format!("data: {{\"choices\":[{{\"delta\":{{\"content\":{text}}}}}]}}"));
        lines.push(String::new());
    }
    lines.push(format!(
        "data: {{\"choices\":[{{\"delta\":{{}},\"finish_reason\":\"{finish}\"}}],\"usage\":{{\"prompt_tokens\":{},\"completion_tokens\":{},\"prompt_tokens_details\":{{\"cached_tokens\":80}}}}}}",
        usage.0, usage.1
    ));
    lines.push("data: [DONE]".to_string());
    let mut s = Stream::new();
    for l in &lines {
        match s.line(l) {
            Flow::Continue => {}
            Flow::Deliver(t) => on_delta(w, &t),
            Flow::Stop => break,
        }
    }
    Ok(s.stats(1, 2))
}

/// A shell that knows a few commands.
fn shell(line: &str) -> String {
    let line = line.trim();
    if let Some(rest) = line.strip_prefix("echo ") {
        shell_report(&format!("{rest}\n"), "", 0)
    } else if let Some(code) = line.strip_prefix("exit ") {
        shell_report("", "", code.parse().unwrap())
    } else if line.starts_with("sleep ") {
        shell_report("", "", 0)
    } else {
        shell_report("", &format!("{line}: not found\n"), 127)
    }
}

/// Whether a target is a file, and which files have its name.
fn look(w: &World, target: &str) -> (bool, Vec<String>) {
    match Workspace::path_named(target) {
        Some(p) => {
            let is_file = w.files.contains_key(&p) || w.blobs.contains_key(&p);
            let namesakes = w
                .files
                .keys()
                .filter(|k| k.rsplit('/').next() == Some(p.as_str()))
                .cloned()
                .collect();
            (is_file, namesakes)
        }
        None => (false, Vec::new()),
    }
}

fn find(w: &World, ws: &mut Workspace, target: &str) -> Found {
    let (is_file, namesakes) = look(w, target);
    let text = match ws.resolve(target, is_file, &namesakes) {
        Ok((_, path)) => w.files.get(&path).cloned().ok_or_else(|| "no such file".to_string()),
        Err(e) => Err(e),
    };
    Found { is_file, namesakes, text }
}

fn grep(w: &World, ws: &mut Workspace, pat: &str, target: &Option<String>) -> Result<String, String> {
    let (is_file, namesakes) = match target {
        Some(t) => look(w, t),
        None => (false, Vec::new()),
    };
    let exists = is_file
        || match target {
            Some(t) => w.files.keys().any(|k| k.starts_with(&format!("{}/", t.trim_end_matches('/')))),
            None => true,
        };
    let mut g = ws.grep(pat, target, is_file, &namesakes, exists)?;
    while let Some(path) = g.next(0, "0.0") {
        if let Some(text) = w.files.get(&path) {
            g.file(ws, &path, Some(text.clone()));
        } else {
            let prefix = if path.is_empty() { String::new() } else { format!("{}/", path.trim_end_matches('/')) };
            let held: Vec<String> = w.files.keys().filter(|k| k.starts_with(&prefix)).cloned().collect();
            g.directory(&path, held);
        }
    }
    Ok(g.report())
}

fn text_at(v: &serde_json::Value, key: &str) -> Option<String> {
    v[key].as_str().map(|s| s.to_string())
}

fn read_plan(text: &str) -> Result<Plan, String> {
    let v: serde_json::Value = serde_json::from_str(text)
        .or_else(|_| serde_json::from_str(&forgive_commas(text)))
        .map_err(|e| e.to_string())?;
    let mut steps = Vec::new();
    for s in v["steps"].as_array().ok_or("no steps")? {
        steps.push(Step {
            id: text_at(s, "id").ok_or("no id")?,
            what: text_at(s, "what").unwrap_or_default(),
            status: text_at(s, "status").unwrap_or_else(|| "todo".to_string()),
            needs: s["needs"]
                .as_array()
                .map(|a| a.iter().filter_map(|n| n.as_str()).map(|n| n.to_string()).collect())
                .unwrap_or_default(),
            verify: text_at(s, "verify"),
        });
    }
    Ok(Plan { goal: text_at(&v, "goal").unwrap_or_default(), steps })
}

fn write_plan(p: &Plan) -> String {
    let quote = |s: &str| serde_json::to_string(s).unwrap();
    let steps: Vec<String> = p
        .steps
        .iter()
        .map(|s| {
            let needs: Vec<String> = s.needs.iter().map(|n| quote(n)).collect();
            let verify = match &s.verify {
                Some(v) => format!(",\"verify\":{}", quote(v)),
                None => String::new(),
            };
            format!(
                "{{\"id\":{},\"what\":{},\"status\":{},\"needs\":[{}]{verify}}}",
                quote(&s.id),
                quote(&s.what),
                quote(&s.status),
                needs.join(",")
            )
        })
        .collect();
    format!("{{\"goal\":{},\"steps\":[{}]}}", quote(&p.goal), steps.join(","))
}

fn load_plan(w: &World, file: &str) -> Option<Result<Plan, String>> {
    w.files.get(file).map(|t| read_plan(t))
}

/// A pass over the plan, with its verify commands run.
fn tick(w: &mut World, run: &Run) -> PlanNews {
    let file = run.set.cfg.plan.file.clone();
    match load_plan(w, &file) {
        None => PlanNews::Missing,
        Some(Err(e)) => PlanNews::Broken(e),
        Some(Ok(plan)) => {
            let mut t = PlanTick::new(plan);
            while let Some(cmd) = t.advance(&run.seen) {
                t.verified(&shell(&cmd));
            }
            if t.dirty {
                w.files.insert(file, write_plan(&t.plan));
            }
            PlanNews::Ticked(t)
        }
    }
}

fn work(w: &mut World, run: &mut Run, cmd: &Cmd) -> String {
    match cmd {
        Cmd::Read { target, range } => {
            let found = find(w, &mut run.ws, target);
            flat(run.ws.read(target, *range, &found))
        }
        Cmd::Edit { target, a, b, body } => {
            let found = find(w, &mut run.ws, target);
            flat(run.ws.edit(target, *a, *b, body, &found).map(|e| {
                w.files.insert(e.path.clone(), e.text);
                run.ws.mark_written(&e.path);
                e.report
            }))
        }
        Cmd::Insert { target, after, body } => {
            let found = find(w, &mut run.ws, target);
            flat(run.ws.insert(target, *after, body, &found).map(|e| {
                w.files.insert(e.path.clone(), e.text);
                run.ws.mark_written(&e.path);
                e.report
            }))
        }
        Cmd::New { path, body } => flat(run.ws.new_file(path, body).map(|(rel, text)| {
            w.files.insert(rel.clone(), text);
            run.ws.mark_written(&rel);
            run.ws.created(&rel, body)
        })),
        Cmd::Grep { pat, target } => flat(grep(w, &mut run.ws, pat, target)),
        Cmd::Outline { target } => {
            let found = find(w, &mut run.ws, target);
            flat(run.ws.outline(target, &found))
        }
        Cmd::PlanStep { id, status } => {
            let file = run.set.cfg.plan.file.clone();
            match plan_step(load_plan(w, &file), &file, id, status) {
                Ok((plan, said)) => {
                    w.files.insert(file, write_plan(&plan));
                    said
                }
                Err(e) => e,
            }
        }
        Cmd::Think { why } => run.desk.asked_to_think(why),
        Cmd::Exec { line } => shell(line),
        Cmd::Custom { verb, args } => match tool_call(&run.set.cfg, *verb, args) {
            Ok(call) => tool_output(&call, shell(&call.line), run.set.cfg.context.result_cap_chars),
            Err(e) => e,
        },
        other => panic!("not work: {other:?}"),
    }
}

fn perform(w: &mut World, run: &mut Run, subs: &mut Vec<Option<Report>>, cmd: Cmd) {
    match run.dispatch(cmd) {
        Todo::Nothing => {}
        Todo::View { target } => {
            let (is_file, namesakes) = look(w, &target);
            let bytes = match run.ws.resolve(&target, is_file, &namesakes) {
                Ok((_, p)) => w.blobs.get(&p).cloned().ok_or_else(|| "no such file".to_string()),
                Err(e) => Err(e),
            };
            let size = bytes.clone().map(|b| b.len() as u64);
            let image = run.ws.load_image(&target, &ImageFound { is_file, namesakes, size, bytes });
            run.land_image(image);
        }
        Todo::Spawn { profile, task } => {
            let cfg = run.set.cfg.clone();
            let depth = run.desk.log.depth + 1;
            let ctl = run.desk.log.ctl.for_sub(&profile);
            let session = Session::new(&cfg, String::new(), depth, None);
            let (_, rep) = go(w, &cfg, session, &task, Some(&profile), depth, ctl);
            subs.push(Some(rep));
        }
        Todo::Tool { cmd, mode } => {
            let result = work(w, run, &cmd);
            run.land(&cmd, mode, result, 5);
        }
    }
}

/// Asks the model for a text.
fn ask_text(w: &mut World, user: String) -> Option<(String, StreamStats)> {
    w.sent.push((user, false));
    let mut text = String::new();
    let r = stream(w, &mut |_, d| text.push_str(d));
    r.ok().map(|s| (text, s))
}

/// One run of a task in a session, to its end.
fn go(
    w: &mut World,
    cfg: &Config,
    session: Session,
    task: &str,
    profile: Option<&str>,
    depth: u8,
    ctl: Ctl,
) -> (Session, Report) {
    let mut run = Run::start(
        cfg.clone(),
        session,
        task.to_string(),
        profile.map(|p| p.to_string()),
        depth,
        ctl,
        CPT_MILLI,
    );
    let mut subs: Vec<Option<Report>> = Vec::new();
    let mut verify: Option<(bool, String)> = None;
    let mut action = Action::NextTurn { wait_ms: 0 };
    loop {
        action = match action {
            Action::NextTurn { .. } => {
                let inbox = if depth == 0 { std::mem::take(&mut w.inbox) } else { Vec::new() };
                run.step(Event::Turn { stopped: false, inbox, back: Vec::new(), verify: verify.take() })
            }
            Action::TickPlan => {
                let news = tick(w, &run);
                run.step(Event::Plan { news })
            }
            Action::Summarize { user } => {
                let reply = ask_text(w, user);
                run.step(Event::Summary { reply })
            }
            Action::Ask { user, images, think } => {
                w.sent.push((user, think));
                w.images.push(images.len());
                let result = stream(w, &mut |w, d| {
                    for cmd in run.feed(d) {
                        perform(w, &mut run, &mut subs, cmd);
                    }
                });
                run.step(Event::Streamed { render_us: 1, result })
            }
            Action::Dispatch { commands } => {
                for cmd in commands {
                    perform(w, &mut run, &mut subs, cmd);
                }
                let next = run.step(Event::Dispatched);
                if run.verify_wanted {
                    let cmd = run.set.cfg.verify.cmd.clone().unwrap();
                    verify = Some(verify_outcome(&run.set.cfg, &shell(&cmd)));
                }
                next
            }
            Action::AwaitVerify => run.step(Event::Verified { verify: verify.take() }),
            Action::CheckClaims { user } => {
                let reply = ask_text(w, user);
                run.step(Event::Checked { reply })
            }
            Action::AwaitSubs => run.step(Event::SubsBack { back: std::mem::take(&mut subs) }),
            Action::End => break,
            Action::Nothing => panic!("the run was told something it did not ask for"),
        };
    }
    run.close(subs, 1500, "1.5", "0.1", "0.0");
    w.events.extend(run.take_events());
    run.into_parts()
}

fn new_session(cfg: &Config) -> Session {
    let tree = Dir::Read { files: vec!["greet.txt".to_string()], dirs: Table::new() };
    let facts = Facts {
        windows: false,
        shell: "sh".to_string(),
        git: None,
        tree,
        instructions: Vec::new(),
    };
    Session::new(cfg, "/work".to_string(), 0, Some(workspace_state(&facts)))
}

fn leader() -> Ctl {
    Ctl { tag: None }
}

fn run_once(w: &mut World, cfg: &Config, task: &str) -> (Session, Report) {
    go(w, cfg, new_session(cfg), task, None, 0, leader())
}

fn texts(s: &Session) -> Vec<String> {
    (0..s.ledger.len()).map(|i| s.ledger.entry(i).text.clone()).collect()
}

fn says(w: &World) -> Vec<String> {
    w.events
        .iter()
        .filter_map(|e| match e {
            Ev::Say(t) => Some(t.clone()),
            _ => None,
        })
        .collect()
}

fn has(s: &Session, part: &str) -> bool {
    texts(s).iter().any(|t| t.contains(part))
}

/// The document of a session under a budget that never folds.
fn wide_doc(s: &mut Session, cfg: &Config) -> String {
    let mut ctx = cfg.context.clone();
    ctx.budget_tokens = 100_000;
    s.renderer.render(&s.ledger, &ctx, 99, CPT_MILLI)
}

#[test]
fn full_loop_fixes_typo_and_measures_overhead() {
    let mut w = world(&[
        "G \"wrold\"\nR 0\n",
        "E 0 2:2\nworld\n.\n",
        "X echo verified\nD fixed the typo in greet.txt\n",
    ]);
    let t = Instant::now();
    let (s, rep) = run_once(&mut w, &small_cfg(), "fix the typo in greet.txt");
    let overhead = t.elapsed().as_millis();
    assert_eq!(rep.turns, 3, "final: {}", rep.final_msg);
    assert_eq!(rep.final_msg, "fixed the typo in greet.txt");
    assert_eq!(w.files["greet.txt"], "hello\nworld\ngoodbye\n");
    assert_eq!(rep.commands, 5);
    assert!(s.ledger.len() >= 10, "entries: {}", s.ledger.len());
    assert!(overhead < 250, "harness overhead {overhead}ms too high");
}

#[test]
fn profile_restriction_blocks_edits() {
    let mut w = world(&["E 0 1:1\nhacked\n.\nD tried\n"]);
    let mut cfg = base_cfg();
    let mut p = ProfileCfg::with_system("You only read.".to_string());
    p.tools = "RG".to_string();
    p.max_turns = 3;
    cfg.profile.insert("reader".to_string(), p);
    let session = Session::new(&cfg, "/work".to_string(), 1, None);
    let (_, rep) = go(&mut w, &cfg, session, "look around", Some("reader"), 1, leader());
    assert_eq!(rep.final_msg, "tried");
    assert_eq!(w.files["greet.txt"], "hello\nwrold\ngoodbye\n", "read-only profile must not edit");
}

#[test]
fn event_stream_feeds_a_ui() {
    let mut w = world(&["R greet.txt\n", "D looked\n"]);
    let (_, rep) = run_once(&mut w, &small_cfg(), "look at greet.txt");
    assert_eq!(rep.final_msg, "looked");
    let evs = &w.events;
    assert!(evs.iter().any(|e| matches!(e, Ev::Turn(1))), "no Turn event");
    assert!(evs.iter().any(|e| matches!(e, Ev::Delta(_))), "no Delta events");
    assert!(
        evs.iter().any(|e| matches!(e, Ev::Action(0, a) if a == "R greet.txt")),
        "no Action event"
    );
    assert!(evs.iter().any(|e| matches!(e, Ev::Result(0, _))), "no Result event");
    assert!(evs.iter().any(|e| matches!(e, Ev::Report(_))), "no Report event");
    assert!(matches!(evs.last(), Some(Ev::Done(m)) if m == "looked"), "Done must be last");
}

const VERBOSE: &str = "D one — this deliberately verbose completion note pads the ledger well past the ten-token budget so run two must compact first\n";

#[test]
fn model_compaction_seals_history_but_ledger_stays_lossless() {
    let mut w = world(&[
        "X echo a\nX echo b\nX echo c\n",
        VERBOSE,
        "COMPACT BRIEF: finished task one; greet.txt untouched.\n",
        "D two\n",
    ]);
    let cfg = sealing_cfg();
    let (s, r1) = run_once(&mut w, &cfg, "first task");
    assert!(r1.final_msg.starts_with("one"), "{}", r1.final_msg);
    let (mut s, r2) = go(&mut w, &cfg, s, "second task", None, 0, leader());
    assert_eq!(r2.final_msg, "two");
    let doc = wide_doc(&mut s, &cfg);
    assert!(doc.contains("[history compressed]") && doc.contains("COMPACT BRIEF"), "{doc}");
    assert!(!has(&s, "COMPACT BRIEF"), "summary leaked into the ledger");
}

#[test]
fn length_cap_writes_partial_and_tells_model_to_continue() {
    let mut w = world(&[
        "LENGTH:N page.html\n<!DOCTYPE html>\n<body>",
        "I 0 2\n</body>\n.\nD finished the page\n",
    ]);
    let (s, rep) = run_once(&mut w, &small_cfg(), "make page");
    assert_eq!(rep.final_msg, "finished the page");
    assert!(has(&s, "hit the max_tokens limit"), "continuation note missing");
    assert_eq!(w.files["page.html"], "<!DOCTYPE html>\n<body>\n</body>\n");
}

#[test]
fn say_speaks_without_ending_the_run() {
    let mut w = world(&["S found the bug, fixing it now\nX echo work\n", "D fixed\n"]);
    let (_, rep) = run_once(&mut w, &small_cfg(), "task");
    assert_eq!(rep.final_msg, "fixed");
    assert_eq!(rep.turns, 2, "S must not end the run");
    assert_eq!(says(&w), vec!["found the bug, fixing it now".to_string()]);
}

#[test]
fn done_with_trailing_commands_is_rescued() {
    let mut w = world(&["D let me check that\nX echo hi\n", "D really done\n"]);
    let (s, rep) = run_once(&mut w, &small_cfg(), "task");
    assert_eq!(rep.final_msg, "really done");
    assert_eq!(rep.turns, 2);
    assert!(has(&s, "you told the user: let me check that"), "say part missing");
    assert!(has(&s, "X echo hi"), "command part not executed");
}

#[test]
fn outline_verb_maps_a_file() {
    let mut w = world(&["O util.py\nD outlined\n"]);
    w.files.insert(
        "util.py".to_string(),
        "import os\n\nclass Tool:\n    def run(self):\n        return 1\n".to_string(),
    );
    let (s, _) = run_once(&mut w, &small_cfg(), "map it");
    let all = texts(&s);
    let out = all.iter().find(|t| t.starts_with("outline #")).expect("no outline result");
    assert!(out.contains("3: class Tool:") && out.contains("4:     def run(self):"), "{out}");
    assert!(!out.contains("return 1"), "body leaked: {out}");
}

fn verifying(cmd: &str) -> Config {
    let mut cfg = bare_cfg();
    cfg.verify.cmd = Some(cmd.to_string());
    cfg.verify.timeout_ms = 120_000;
    cfg
}

fn with_greet_interned(w: &World, cfg: &Config) -> Session {
    let mut s = new_session(cfg);
    let found = find(w, &mut s.ws, "greet.txt");
    assert!(s.ws.read("greet.txt", None, &found).is_ok());
    s
}

#[test]
fn auto_verify_runs_after_edits_and_gates_done() {
    let mut w = world(&["E 0 2:2\nworld\n.\nD fixed it\n", "D giving my report anyway\n"]);
    let cfg = verifying("exit 5");
    let s = with_greet_interned(&w, &cfg);
    let (s, rep) = go(&mut w, &cfg, s, "fix", None, 0, leader());
    assert_eq!(rep.final_msg, "giving my report anyway");
    assert_eq!(rep.turns, 2);
    let all = texts(&s);
    assert!(all.iter().any(|t| t.starts_with("(auto-verify FAIL")), "no auto-verify: {all:?}");
    assert!(all.iter().any(|t| t.contains("D refused — auto-verify")), "no gate: {all:?}");

    let mut w2 = world(&["E 0 2:2\nworld\n.\nD done\n"]);
    let cfg2 = verifying("echo tests pass");
    let s2 = with_greet_interned(&w2, &cfg2);
    let (s2, rep2) = go(&mut w2, &cfg2, s2, "fix", None, 0, leader());
    assert_eq!(rep2.final_msg, "done");
    assert_eq!(rep2.turns, 1, "pass case must finish in one turn");
    assert!(texts(&s2).iter().any(|t| t.starts_with("(auto-verify PASS")));
}

#[test]
fn plan_state_machine_enforces_and_verifies() {
    let mut w = world(&[
        "N plan.json\n{\"goal\":\"demo\",\"steps\":[{\"id\":\"fix\",\"what\":\"fix greet\",\"status\":\"doing\",\"verify\":\"echo ok\"}]}\n.\nD all done\n",
        "E 0 1:1\n{\"goal\":\"demo\",\"steps\":[{\"id\":\"fix\",\"what\":\"fix greet\",\"status\":\"done\",\"verify\":\"echo ok\"}]}\n.\nD actually done\n",
    ]);
    let (s, rep) = run_once(&mut w, &small_cfg(), "do the plan");
    assert_eq!(rep.final_msg, "actually done");
    assert_eq!(rep.turns, 2);
    let all = texts(&s);
    assert!(
        all.iter().any(|t| t.contains("D refused") && t.contains("fix")),
        "refusal missing: {all:?}"
    );
}

#[test]
fn lying_about_done_gets_reverted_by_verify() {
    let mut w = world(&[
        "N plan.json\n{\"goal\":\"demo\",\"steps\":[{\"id\":\"broken\",\"status\":\"done\",\"verify\":\"exit 3\"}]}\n.\nD shipped it\n",
        "N plan.json\n{\"goal\":\"demo\",\"steps\":[{\"id\":\"broken\",\"status\":\"skip\",\"verify\":\"exit 3\"}]}\n.\nD descoped\n",
    ]);
    let (s, rep) = run_once(&mut w, &small_cfg(), "ship");
    assert_eq!(rep.final_msg, "descoped");
    let plan = &w.files["plan.json"];
    assert!(plan.contains("skip"), "{plan}");
    assert!(has(&s, "verify FAILED"), "revert note missing");
}

#[test]
fn a_question_needs_d_to_hand_the_mic_back() {
    let mut w = world(&["S what would you like me to do?\n", "D what would you like me to do?\n"]);
    let (_, rep) = run_once(&mut w, &small_cfg(), "wasu");
    assert_eq!(rep.final_msg, "what would you like me to do?");
    assert_eq!(rep.turns, 2, "solo S must not end the run by itself");
    assert_eq!((rep.tok_in, rep.tok_cached, rep.tok_out), (200, 160, 14));
}

#[test]
fn view_attaches_image_for_next_turn() {
    let mut w = world(&["V pic.png\n", "D saw it\n"]);
    w.blobs.insert("pic.png".to_string(), vec![0x89u8, 0x50, 0x4E, 0x47, 1, 2, 3, 4]);
    let (s, rep) = run_once(&mut w, &small_cfg(), "look at pic");
    assert_eq!(rep.final_msg, "saw it");
    assert!(
        texts(&s).iter().any(|t| t.contains("attached") && t.contains("SEE")),
        "attach note missing"
    );
    assert_eq!(w.images, vec![0, 1]);
}

#[test]
fn duplicate_subagent_spawns_are_refused() {
    let mut w = world(&[
        "A researcher dig into the repo\nX sleep 0.4\n",
        "X sleep 1\nD sub done\n",
        "A researcher dig into the repo\n",
        "D finished\n",
        "D finished\n",
    ]);
    let mut cfg = bare_cfg();
    researcher(&mut cfg);
    let (s, rep) = run_once(&mut w, &cfg, "go");
    assert_eq!(rep.final_msg, "finished");
    let all = texts(&s);
    assert!(all.iter().any(|t| t.contains("started in background")), "spawn ack missing: {all:?}");
    assert!(all.iter().any(|t| t.contains("ALREADY RUNNING")), "duplicate refusal missing: {all:?}");
    let spawns = all.iter().filter(|t| t.starts_with("A researcher")).count();
    assert_eq!(spawns, 1, "duplicate was spawned anyway");
}

#[test]
fn degenerate_spam_is_cut_and_retried() {
    let spam = format!("R greet.txt\n{}", "!".repeat(600));
    let mut w = world(&[&spam, "D recovered\n"]);
    let (_, rep) = run_once(&mut w, &small_cfg(), "task");
    assert_eq!(rep.final_msg, "recovered");
}

#[test]
fn ascii_art_survives_the_degeneration_guard() {
    let art = format!("D here is the diagram\n{}\nstate machine\n{}\n", "-".repeat(120), "-".repeat(120));
    let mut w = world(&[&art]);
    let (_, rep) = run_once(&mut w, &small_cfg(), "draw it");
    assert!(rep.final_msg.contains("state machine"), "art was cut: {}", rep.final_msg);
    assert_eq!(rep.turns, 1);
}

#[test]
fn phrase_loops_are_cut_like_char_spam() {
    let looped = format!("D {}\n", "the model is stuck here. ".repeat(40));
    let mut w = world(&[&looped, "D recovered\n"]);
    let (_, rep) = run_once(&mut w, &small_cfg(), "task");
    assert_eq!(rep.final_msg, "recovered", "phrase loop was not cut");
}

#[test]
fn long_line_loops_are_cut() {
    let line = "get child item over the temp directory recursively with silent errors piped to measure object length sum piped to select object rounding the sum to gigabytes with two decimals for the report\n";
    assert!(line.len() > 150, "test line must exceed the old period cap");
    let spam = line.repeat(8);
    let mut w = world(&[&spam, "D recovered\n"]);
    let (_, rep) = run_once(&mut w, &small_cfg(), "task");
    assert_eq!(rep.final_msg, "recovered", "long-line loop was not cut");
}

#[test]
fn endless_refusal_loop_aborts() {
    let same = "G \"wrold\" greet.txt\n";
    let mut scripts = vec![same; 30];
    scripts.push("D never reached\n");
    let mut w = world(&scripts);
    let mut cfg = bare_cfg();
    cfg.context.max_turns = 0;
    let (_, rep) = run_once(&mut w, &cfg, "loop");
    assert!(rep.final_msg.contains("kept repeating"), "{}", rep.final_msg);
    assert!(rep.turns < 25, "ran {} turns", rep.turns);
}

#[test]
fn endless_collapse_aborts_with_explanation() {
    let spam = "!".repeat(600);
    let mut w = world(&[&spam, &spam, &spam, &spam, &spam, &spam, &spam, &spam]);
    let (_, rep) = run_once(&mut w, &small_cfg(), "task");
    assert!(rep.final_msg.contains("collapsed 6 times"), "{}", rep.final_msg);
    assert!(rep.turns <= 7);
}

#[test]
fn midrun_inbox_message_lands_in_ledger() {
    let mut w = world(&["X echo one\n", "D ok\n"]);
    w.inbox.push("also check the docs folder".to_string());
    let (s, rep) = run_once(&mut w, &small_cfg(), "main task");
    assert_eq!(rep.final_msg, "ok");
    assert!(
        texts(&s).iter().any(|t| t == "also check the docs folder"),
        "steering message missing from ledger"
    );
}

#[test]
fn subagents_stream_in_and_done_waits_for_stragglers() {
    let mut w = world(&[
        "A researcher find the answer\nD too early\n",
        "X sleep 1\nD sub-answer: 42\n",
        "D final with sub knowledge\n",
    ]);
    let mut cfg = bare_cfg();
    researcher(&mut cfg);
    let (s, rep) = run_once(&mut w, &cfg, "big question");
    assert_eq!(rep.final_msg, "final with sub knowledge");
    let all = texts(&s);
    let brief = all.iter().position(|t| t.contains("[researcher]") && t.contains("sub-answer: 42"));
    let final_pos = all.iter().position(|t| t.contains("final with sub knowledge"));
    assert!(brief.is_some(), "brief missing: {all:?}");
    assert!(all.iter().any(|t| t.contains("incorporate their briefs")), "wait note missing");
    assert!(brief.unwrap() < final_pos.unwrap(), "brief must land before the final answer");
}

#[test]
fn zero_max_turns_means_unlimited() {
    let mut w = world(&["X echo a\n", "X echo b\n", "X echo c\n", "D unbounded\n"]);
    let mut cfg = bare_cfg();
    cfg.context.max_turns = 0;
    let (_, rep) = run_once(&mut w, &cfg, "go");
    assert_eq!(rep.final_msg, "unbounded");
    assert_eq!(rep.turns, 4);
}

#[test]
fn empty_done_is_not_max_turns() {
    let mut w = world(&["D\n"]);
    let (_, rep) = run_once(&mut w, &small_cfg(), "cool");
    assert_eq!(rep.final_msg, "done.");
    assert_eq!(rep.turns, 1);
}

#[test]
fn final_message_truncates_hallucinated_scaffolding() {
    let mut w = world(&[
        "D found it in E:\\Repos\\haste\nsecond real line\n## TASK\ndäm\n## LOG\n> X junk\n",
    ]);
    let (_, rep) = run_once(&mut w, &small_cfg(), "find repo");
    assert_eq!(rep.final_msg, "found it in E:\\Repos\\haste\nsecond real line");
}

#[test]
fn loop_breaker_warns_then_refuses() {
    let same = "G \"wrold\" greet.txt\n";
    let mut w = world(&[same, same, same, same, same, same, same, "D gave up\n"]);
    let (s, rep) = run_once(&mut w, &small_cfg(), "loop");
    assert_eq!(rep.final_msg, "gave up");
    let all = texts(&s);
    assert!(all.iter().any(|t| t.contains("identical result every time")), "warning missing: {all:?}");
    assert!(all.iter().any(|t| t.contains("refusal #1")), "refusal missing: {all:?}");
}

#[test]
fn continued_session_shares_ledger() {
    let mut w = world(&["D one\n", "D two\n"]);
    let cfg = small_cfg();
    let (s, r1) = run_once(&mut w, &cfg, "first");
    let (s, r2) = go(&mut w, &cfg, s, "second", None, 0, leader());
    assert_eq!(r1.final_msg, "one");
    assert_eq!(r2.final_msg, "two");
    let kinds: Vec<Kind> = (0..s.ledger.len()).map(|i| s.ledger.entry(i).kind).collect();
    let tasks = kinds.iter().filter(|k| matches!(k, Kind::Task)).count();
    let finals = kinds.iter().filter(|k| matches!(k, Kind::Final)).count();
    assert_eq!((tasks, finals), (2, 2), "one ledger must hold both tasks");
    assert_eq!(s.ledger.entry(s.ledger.len() - 1).turn, 2);
}

#[test]
fn narration_d_is_refused_and_scaffold_is_stripped() {
    let mut w = world(&[
        "S checking sibling projects for patterns\nD checking sibling projects for patterns\n",
        "D swedish only, no i18n layer\n</invoke>\n",
    ]);
    let (s, rep) = run_once(&mut w, &small_cfg(), "answer");
    assert_eq!(rep.final_msg, "swedish only, no i18n layer");
    assert_eq!(rep.turns, 2, "narration D must not end turn 1");
    assert!(has(&s, "only repeats what you just said"), "no refusal note");
}

#[test]
fn a_talk_only_turn_never_ends_the_run() {
    let mut w = world(&[
        "S Found 11 directories. Now scanning each for project indicators\n",
        "X echo scanned\nD 11 projects found, 3 are Rust\n",
    ]);
    let (s, rep) = run_once(&mut w, &small_cfg(), "survey");
    assert_eq!(rep.final_msg, "11 projects found, 3 are Rust");
    assert_eq!(rep.turns, 2, "a talk-only turn must not end turn 1");
    assert!(has(&s, "S never ends the run"), "no continue nudge in ledger");
}

#[test]
fn endless_talk_is_capped_so_the_run_cannot_spin() {
    let mut w = world(&[
        "S thinking about it\n",
        "S still thinking about it\n",
        "S nearly there\n",
        "S and on and on\n",
    ]);
    let (_, rep) = run_once(&mut w, &small_cfg(), "go");
    assert_eq!(rep.turns, 3, "three work-free talk turns must end the run");
    assert!(
        rep.final_msg.contains("narration with no commands run"),
        "narration was returned as the result: {}",
        rep.final_msg
    );
}

#[test]
fn completed_plan_step_triggers_phase_seal_under_budget() {
    let mut w = world(&[
        "N plan.json\n{\"goal\":\"demo\",\"steps\":[{\"id\":\"s1\",\"what\":\"pad\",\"status\":\"todo\",\"verify\":\"echo ok\"}]}\n.\nX echo a\nX echo b\nX echo c\nX echo d\nX echo e\n",
        "E 0 1:1\n{\"goal\":\"demo\",\"steps\":[{\"id\":\"s1\",\"what\":\"pad\",\"status\":\"done\",\"verify\":\"echo ok\"}]}\n.\n",
        "PHASE BRIEF: step s1 finished; nothing pending.\n",
        "D phase sealed\n",
    ]);
    let mut cfg = sealing_cfg();
    cfg.context.budget_tokens = 100_000;
    cfg.context.compact_phase_tokens = 10;
    let (mut s, rep) = run_once(&mut w, &cfg, "do the phase");
    assert_eq!(rep.final_msg, "phase sealed");
    assert_eq!(rep.seals, 1, "phase boundary must seal exactly once");
    let doc = wide_doc(&mut s, &cfg);
    assert!(doc.contains("PHASE BRIEF"), "summary missing from render:\n{doc}");
}

#[test]
fn append_mode_dedups_identical_results_at_write_time() {
    let mut w = world(&["R big.txt\n", "R big.txt\n", "D compared\n"]);
    let body: String = (1..=30).map(|i| format!("line number {i} with some padding text\n")).collect();
    w.files.insert("big.txt".to_string(), body);
    let mut cfg = bare_cfg();
    cfg.context.mode = "append".to_string();
    let (s, rep) = run_once(&mut w, &cfg, "compare");
    assert_eq!(rep.final_msg, "compared");
    let results: Vec<String> = texts(&s).iter().map(|t| t.chars().take(60).collect()).collect();
    let dups = texts(&s).iter().filter(|t| t.starts_with("(= identical")).count();
    assert_eq!(dups, 1, "second read must be a pointer: {results:?}");
}

fn plain_tool(cmd: &str) -> ToolCfg {
    ToolCfg {
        desc: "custom search".to_string(),
        cmd: cmd.to_string(),
        prune: None,
        timeout_ms: None,
        env: Table::new(),
        override_native: false,
        poll: false,
    }
}

#[test]
fn override_tool_replaces_native_verb() {
    let mut w = world(&["G anything at all\n", "D overridden\n"]);
    let mut cfg = bare_cfg();
    let mut t = plain_tool("echo MODGREP {args}");
    t.override_native = true;
    cfg.tool.insert("G".to_string(), t);
    let (s, rep) = run_once(&mut w, &cfg, "search");
    assert_eq!(rep.final_msg, "overridden");
    assert!(has(&s, "MODGREP"), "override tool did not run");
    assert!(cfg.check_verbs().is_ok());
    let mut bad = bare_cfg();
    bad.tool.insert("G".to_string(), plain_tool("c"));
    assert_eq!(
        bad.check_verbs(),
        Err("tool verb 'G' must be a single uppercase letter outside REIGNXADVSOPB (or one of RGXOV with override = true)".to_string())
    );
}

#[test]
fn pure_prose_turn_is_rescued_as_say() {
    let mut w = world(&[
        "The rounding bug is fixed in tax.py.\nAll three tests pass now.\n",
        "D reported\n",
    ]);
    let (_, rep) = run_once(&mut w, &small_cfg(), "report");
    let all = says(&w);
    let joined = all.join("\n");
    assert!(joined.contains("rounding bug is fixed"), "{all:?}");
    assert!(joined.contains("tests pass"), "{all:?}");
    assert_eq!(rep.final_msg, "reported");
    assert_eq!(rep.turns, 2, "prose rescue must not loop");
}

#[test]
fn plan_with_trailing_commas_still_parses() {
    let plan = read_plan("{\"goal\":\"g\",\"steps\":[{\"id\":\"a\",\"status\":\"todo\",},],}")
        .expect("trailing commas must be forgiven");
    assert_eq!(plan.steps.len(), 1);
    assert_eq!(plan.steps[0].id, "a");
}

#[test]
fn blocked_step_cannot_be_marked_done() {
    let mut w = world(&[
        "N plan.json\n{\"goal\":\"gate\",\"steps\":[{\"id\":\"s1\",\"what\":\"first\",\"status\":\"todo\"},{\"id\":\"s2\",\"what\":\"second\",\"status\":\"done\",\"needs\":[\"s1\"]}]}\n.\n",
        "N plan.json\n{\"goal\":\"gate\",\"steps\":[{\"id\":\"s1\",\"what\":\"first\",\"status\":\"done\"},{\"id\":\"s2\",\"what\":\"second\",\"status\":\"done\",\"needs\":[\"s1\"]}]}\n.\nD in order\n",
    ]);
    let (s, rep) = run_once(&mut w, &small_cfg(), "gated");
    assert_eq!(rep.final_msg, "in order");
    assert!(has(&s, "BLOCKED by open step"), "no gate note in ledger");
    let plan = &w.files["plan.json"];
    assert!(plan.contains("\"done\""), "{plan}");
}

#[test]
fn step_kickoff_protocol_fires_on_doing_transition() {
    let mut w = world(&[
        "N plan.json\n{\"goal\":\"kick\",\"steps\":[{\"id\":\"s1\",\"what\":\"the work\",\"status\":\"todo\"}]}\n.\n",
        "E 0 1:1\n{\"goal\":\"kick\",\"steps\":[{\"id\":\"s1\",\"what\":\"the work\",\"status\":\"doing\"}]}\n.\n",
        "E 0 1:1\n{\"goal\":\"kick\",\"steps\":[{\"id\":\"s1\",\"what\":\"the work\",\"status\":\"done\"}]}\n.\nD kicked\n",
    ]);
    let (s, rep) = run_once(&mut w, &small_cfg(), "go");
    assert_eq!(rep.final_msg, "kicked");
    assert!(has(&s, "step 's1' started — protocol"), "no kickoff note");
}

#[test]
fn talk_only_turn_with_open_plan_does_not_end_the_run() {
    let mut w = world(&[
        "N plan.json\n{\"goal\":\"keep going\",\"steps\":[{\"id\":\"s1\",\"what\":\"the fix\",\"status\":\"doing\"}]}\n.\n",
        "S still working through the rounding logic\n",
        "N plan.json\n{\"goal\":\"keep going\",\"steps\":[{\"id\":\"s1\",\"what\":\"the fix\",\"status\":\"done\"}]}\n.\nD finished\n",
    ]);
    let (s, rep) = run_once(&mut w, &small_cfg(), "go");
    assert_eq!(rep.final_msg, "finished");
    assert_eq!(rep.turns, 3, "solo-S with open plan must not end turn 2");
    assert!(has(&s, "S never ends the run"), "no continue nudge");
}

#[test]
fn d_with_discarded_prose_block_is_bounced_until_resent() {
    let mut w = world(&[
        "S here is the lay of the land:\nfirst finding in prose\nsecond finding in prose\nthird finding in prose\nD done - see summary above\n",
        "D full report: alpha, beta, gamma\n",
    ]);
    let (s, rep) = run_once(&mut w, &small_cfg(), "survey");
    assert_eq!(rep.final_msg, "full report: alpha, beta, gamma");
    assert_eq!(rep.turns, 2, "D with discarded prose must bounce");
    assert!(has(&s, "Resend the report INSIDE the D"), "no bounce note");
}

#[test]
fn multiline_x_heredoc_runs_as_one_script() {
    let mut w = world(&[
        "X <<\n$a = 'multi'\n$b = 'line'\nWrite-Output \"$a-$b\"\n.\nD scripted\n",
    ]);
    let (s, rep) = run_once(&mut w, &bare_cfg(), "script");
    assert_eq!(rep.final_msg, "scripted");
    assert!(has(&s, "$a = 'multi'\n$b = 'line'\nWrite-Output \"$a-$b\""), "{:?}", texts(&s));
}

#[test]
fn every_task_survives_a_seal_not_just_the_latest() {
    let mut w = world(&[
        "X echo a\nX echo b\nX echo c\n",
        VERBOSE,
        "COMPACT BRIEF: phase one done.\n",
        "D two\n",
    ]);
    let cfg = sealing_cfg();
    let (s, _) = run_once(&mut w, &cfg, "NEVER EDIT CONFIG.PY");
    let (mut s, r2) = go(&mut w, &cfg, s, "now add a feature", None, 0, leader());
    assert_eq!(r2.final_msg, "two");
    assert_eq!(r2.seals, 1, "a seal must have happened for this test to mean anything");
    let doc = wide_doc(&mut s, &cfg);
    assert!(doc.contains("[history compressed]"), "expected a sealed doc:\n{doc}");
    assert!(
        doc.contains("NEVER EDIT CONFIG.PY"),
        "the earlier task's standing constraint was swept by the seal:\n{doc}"
    );
    assert!(doc.contains("now add a feature"), "{doc}");
}

#[test]
fn a_briefing_that_does_not_shrink_the_doc_is_rejected() {
    let mut w = world(&[
        "X echo a\nX echo b\nX echo c\n",
        VERBOSE,
        "USAGE:100,80:COMPACT BRIEF: this briefing is far too long to be a compression.\n",
        "D two\n",
    ]);
    let cfg = sealing_cfg();
    let (s, _) = run_once(&mut w, &cfg, "first task");
    let (mut s, r2) = go(&mut w, &cfg, s, "second task", None, 0, leader());
    assert_eq!(r2.final_msg, "two");
    assert_eq!(r2.seals, 0, "a non-shrinking briefing must not count as a seal");
    let doc = wide_doc(&mut s, &cfg);
    assert!(!doc.contains("COMPACT BRIEF"), "the rejected briefing was sealed in anyway:\n{doc}");
}

#[test]
fn a_degenerate_briefing_is_never_sealed_in() {
    let spam = format!("{}\n", "!".repeat(300));
    let mut w = world(&["X echo a\nX echo b\nX echo c\n", VERBOSE, &spam, "D two\n"]);
    let cfg = sealing_cfg();
    let (s, _) = run_once(&mut w, &cfg, "first task");
    let (mut s, r2) = go(&mut w, &cfg, s, "second task", None, 0, leader());
    assert_eq!(r2.final_msg, "two");
    assert_eq!(r2.seals, 0, "a degenerate briefing must not count as a seal");
    let doc = wide_doc(&mut s, &cfg);
    assert!(
        !doc.contains("!!!!!!!!!!"),
        "spam from a cut generation was sealed into the history view:\n{doc}"
    );
}

#[test]
fn s_heredoc_delivers_a_multiline_message_without_finishing() {
    let mut w = world(&[
        "S <<\nD1: 28GB used\n- alpha-data\n- db-2022\nD2: 3TB used\n.\nX echo more\n",
        "D listed both drives\n",
    ]);
    let (_, rep) = run_once(&mut w, &small_cfg(), "what is on the volumes");
    assert_eq!(rep.final_msg, "listed both drives");
    let all = says(&w);
    let joined = all.join("\n");
    assert!(joined.contains("alpha-data") && joined.contains("db-2022"), "multi-line S lost: {all:?}");
    assert!(joined.contains("D2: 3TB used"), "last payload line lost: {all:?}");
    assert!(rep.commands >= 2, "commands: {}", rep.commands);
}

#[test]
fn prose_after_an_s_line_is_rescued_not_discarded() {
    let mut w = world(&[
        "S Found D1. Now checking D2:\nHere is the listing:\n- alpha-data\n- beta-review\n- gamma-online\n",
        "D done\n",
    ]);
    let (_, rep) = run_once(&mut w, &small_cfg(), "what is on D1");
    let all = says(&w);
    let joined = all.join("\n");
    assert!(joined.contains("Now checking D2:"), "the S line itself was lost: {all:?}");
    assert!(
        joined.contains("alpha-data") && joined.contains("gamma-online"),
        "prose after an S line was discarded — the user never saw the report: {all:?}"
    );
    assert!(rep.turns >= 1);
}

#[test]
fn a_report_claiming_work_the_run_never_did_is_refused() {
    let mut w = world(&[
        "R greet.txt\nD Analysis complete. Findings written to out/report.json.\n",
        "out/report.json is named as written but no files were created or modified.\n",
        "N out/report.json\n{\"ok\":true}\n.\nD Analysis complete. Findings written to out/report.json.\n",
        "OK\n",
    ]);
    let mut cfg = small_cfg();
    cfg.verify.claims = true;
    let (s, rep) = run_once(&mut w, &cfg, "review the code");
    assert_eq!(rep.turns, 2, "the empty-handed D must not end the run");
    assert!(w.files.contains_key("out/report.json"), "the file was never written");
    assert!(has(&s, "claims things this run did not do"), "no claim-check refusal in the ledger");
}

#[test]
fn saying_the_same_thing_twice_ends_it_early() {
    let mut w = world(&[
        "S let me explore the workspace and read the files\n",
        "S let me explore the workspace and read the files\n",
        "D never reached\n",
    ]);
    let (_, rep) = run_once(&mut w, &small_cfg(), "go");
    assert_eq!(rep.turns, 2, "a repeated narration must not run the cap out");
    assert!(rep.final_msg.contains("narration with no commands run"), "{}", rep.final_msg);
}

#[test]
fn a_bare_filename_resolves_to_the_one_file_that_has_it() {
    let mut w = world(&["R buried.txt\n", "D read it\n"]);
    w.files.insert("in/deep/nested/buried.txt".to_string(), "found me\n".to_string());
    let (s, rep) = run_once(&mut w, &small_cfg(), "read buried.txt");
    assert_eq!(rep.final_msg, "read it");
    assert!(has(&s, "found me"), "the bare name did not resolve:\n{:?}", texts(&s));
    assert!(!has(&s, "not a file: buried.txt"), "resolution did not fire");
}

#[test]
fn an_ambiguous_basename_is_not_guessed() {
    let mut w = world(&["R dup.txt\n", "D tried\n"]);
    w.files.insert("a/dup.txt".to_string(), "one\n".to_string());
    w.files.insert("b/dup.txt".to_string(), "two\n".to_string());
    let (s, _) = run_once(&mut w, &small_cfg(), "read dup.txt");
    assert!(has(&s, "not a file: dup.txt"), "an ambiguous name was guessed:\n{:?}", texts(&s));
}

#[test]
fn a_bodiless_new_file_is_refused_not_written_empty() {
    let mut w = world(&["N plan.json\n", "D done\n"]);
    let (s, rep) = run_once(&mut w, &small_cfg(), "plan it");
    assert_eq!(rep.final_msg, "done");
    assert!(!w.files.contains_key("plan.json"), "an empty plan.json was written");
    assert!(has(&s, "had no content"), "no refusal note:\n{:?}", texts(&s));
}

#[test]
fn p_moves_a_plan_step_without_rewriting_the_file() {
    let mut w = world(&[
        "N plan.json\n{\"goal\":\"g\",\"steps\":[{\"id\":\"s1\",\"what\":\"one\",\"status\":\"todo\"},{\"id\":\"s2\",\"what\":\"two\",\"status\":\"todo\"}]}\n.\n",
        "P s1 done\nP s2 skip\n",
        "D finished\n",
    ]);
    let (_, rep) = run_once(&mut w, &small_cfg(), "go");
    assert_eq!(rep.final_msg, "finished");
    let plan: serde_json::Value = serde_json::from_str(&w.files["plan.json"]).unwrap();
    assert_eq!(plan["steps"][0]["status"], "done", "P did not persist");
    assert_eq!(plan["steps"][1]["status"], "skip");
    assert_eq!(plan["steps"][0]["what"], "one", "P must not lose the rest of the step");
}

#[test]
fn p_on_an_unknown_step_names_the_real_ids() {
    let mut w = world(&[
        "N plan.json\n{\"goal\":\"g\",\"steps\":[{\"id\":\"schema\",\"what\":\"one\",\"status\":\"todo\"}]}\n.\n",
        "P typo done\n",
        "P schema done\nD ok\n",
    ]);
    let (s, rep) = run_once(&mut w, &small_cfg(), "go");
    assert_eq!(rep.final_msg, "ok");
    assert!(has(&s, "no step 'typo'") && has(&s, "schema"), "unhelpful error:\n{:?}", texts(&s));
}

#[test]
fn the_no_prose_rule_is_restated_last_not_only_first() {
    let mut w = world(&["R greet.txt\n", "D ok\n"]);
    let (_, rep) = run_once(&mut w, &small_cfg(), "look");
    assert_eq!(rep.final_msg, "ok");
    let sent = &w.sent.last().unwrap().0;
    let now = sent.find("## NOW").expect("no ## NOW in the document");
    let hint = sent.find("command lines ONLY").expect("reminder missing from the document");
    assert!(hint < now, "the reminder must come BEFORE ## NOW, not after it");
    assert!(
        now - hint < 400,
        "the reminder must be the LAST thing before ## NOW (gap was {})",
        now - hint
    );
}

#[test]
fn endpoint_hiccups_are_retried_on_the_same_turn() {
    let mut w = world(&["D recovered\n"]);
    w.failures = 5;
    let (s, rep) = run_once(&mut w, &small_cfg(), "go");
    assert_eq!(rep.final_msg, "recovered");
    assert_eq!(rep.turns, 1);
    assert_eq!(texts(&s).iter().filter(|t| *t == "model error: connection refused").count(), 5);
}

#[test]
fn six_endpoint_failures_end_the_run() {
    let mut w = world(&["D never reached\n"]);
    w.failures = 6;
    let (_, rep) = run_once(&mut w, &small_cfg(), "go");
    assert_eq!(
        rep.final_msg,
        "(aborted: the model endpoint failed 6 times in a row — is the server at http://127.0.0.1:9/v1 up?)"
    );
}

#[test]
fn retries_back_off_up_to_four_seconds() {
    let cfg = small_cfg();
    let mut run = Run::start(cfg.clone(), new_session(&cfg), "t".to_string(), None, 0, leader(), CPT_MILLI);
    let mut waits = Vec::new();
    for _ in 0..5 {
        let a = run.step(Event::Turn { stopped: false, inbox: Vec::new(), back: Vec::new(), verify: None });
        assert!(matches!(a, Action::TickPlan));
        let a = run.step(Event::Plan { news: PlanNews::Missing });
        assert!(matches!(a, Action::Ask { .. }));
        match run.step(Event::Streamed { render_us: 0, result: Err("down".to_string()) }) {
            Action::NextTurn { wait_ms } => waits.push(wait_ms),
            _ => panic!("expected a retry"),
        }
    }
    assert_eq!(waits, vec![500, 1000, 2000, 4000, 4000]);
}

#[test]
fn three_empty_turns_end_the_run() {
    let mut w = world(&["", "", "", "D never reached\n"]);
    let (s, rep) = run_once(&mut w, &small_cfg(), "go");
    assert_eq!(rep.final_msg, "(aborted: model produced no commands)");
    assert_eq!(rep.turns, 3);
    assert_eq!(texts(&s).iter().filter(|t| t.starts_with("no commands parsed")).count(), 2);
}

#[test]
fn the_turn_limit_ends_the_run() {
    let mut w = world(&["X echo a\n", "X echo b\n", "X echo c\n", "X echo d\n"]);
    let mut cfg = small_cfg();
    cfg.context.max_turns = 2;
    let (_, rep) = run_once(&mut w, &cfg, "go");
    assert_eq!(rep.final_msg, "(max turns reached)");
    assert_eq!(rep.turns, 2);
}

#[test]
fn a_stop_request_ends_the_run_between_turns() {
    let cfg = small_cfg();
    let mut run = Run::start(cfg.clone(), new_session(&cfg), "t".to_string(), None, 0, leader(), CPT_MILLI);
    let a = run.step(Event::Turn { stopped: true, inbox: Vec::new(), back: Vec::new(), verify: None });
    assert!(matches!(a, Action::End));
    assert_eq!(run.rep.final_msg, "(stopped)");
}

#[test]
fn unexpected_events_change_nothing() {
    let cfg = small_cfg();
    let mut run = Run::start(cfg.clone(), new_session(&cfg), "t".to_string(), None, 0, leader(), CPT_MILLI);
    let before = run.desk.log.ledger.len();
    assert!(matches!(run.step(Event::Dispatched), Action::Nothing));
    assert_eq!(run.desk.log.ledger.len(), before);
}

#[test]
fn repeated_verify_failures_switch_deliberation_on() {
    let mut w = world(&[
        "E 0 2:2\nworld\n.\nD one\n",
        "E 0 2:2\nworlds\n.\nD two\n",
        "E 0 2:2\nworld!\n.\n",
        "D giving up\n",
        "D giving up for good\n",
    ]);
    let mut cfg = verifying("exit 5");
    cfg.model.think = Some(ThinkCfg {
        on: vec!["verify_fail".to_string()],
        turns: 2,
        after: 2,
        kwargs: Table::new(),
    });
    let s = with_greet_interned(&w, &cfg);
    let (s, _) = go(&mut w, &cfg, s, "fix", None, 0, leader());
    assert!(has(&s, "repeated verify failure means this needs more deliberation"));
    let thinking: Vec<bool> = w.sent.iter().map(|(_, t)| *t).collect();
    assert_eq!(thinking[..4], [false, false, true, true]);
}

#[test]
fn deliberation_requests_are_capped_and_need_the_trigger() {
    let mut w = world(&["B hard\n", "B hard\n", "B hard\n", "D ok\n"]);
    let mut cfg = bare_cfg();
    cfg.model.think = Some(ThinkCfg {
        on: vec!["request".to_string()],
        turns: 1,
        after: 2,
        kwargs: Table::new(),
    });
    let (s, _) = run_once(&mut w, &cfg, "go");
    let granted = texts(&s).iter().filter(|t| t.contains("deliberation on for the next turns")).count();
    assert_eq!(granted, 2);
    assert!(has(&s, "B refused — deliberation was already requested twice"));

    let mut w2 = world(&["B hard\n", "D ok\n"]);
    let (s2, _) = run_once(&mut w2, &bare_cfg(), "go");
    assert!(has(&s2, "B ignored"));
}

#[test]
fn an_unparseable_plan_blocks_d_and_says_why() {
    let mut w = world(&["N plan.json\nnot json\n.\nD done\n", "N plan.json\n{\"steps\":[]}\n.\nD done\n"]);
    let (s, rep) = run_once(&mut w, &small_cfg(), "go");
    assert_eq!(rep.final_msg, "done");
    assert_eq!(rep.turns, 2);
    assert!(has(&s, "the plan has open steps: (unparseable plan)"));
    assert!(w.sent[1].0.contains("## PLAN: PARSE ERROR"));
}

#[test]
fn the_report_line_counts_what_happened() {
    let mut w = world(&["X echo a\nD ok\n"]);
    let (_, rep) = run_once(&mut w, &small_cfg(), "go");
    assert_eq!(rep.commands, 2);
    let line = w.events.iter().find_map(|e| match e {
        Ev::Report(r) => Some(r.clone()),
        _ => None,
    });
    assert_eq!(line, Some("1 turn · 2 cmds · 1.5s · in 100t (80% cached) · out 7t".to_string()));
    assert_eq!(rep.wall_ms, 1500);
    assert_eq!(rep.model_ms, 2);
    assert_eq!(rep.ttft_ms_sum, 1);
}

#[test]
fn only_new_files_are_announced_in_append_mode() {
    let mut w = world(&["R greet.txt\n", "R other.txt\n", "D ok\n"]);
    w.files.insert("other.txt".to_string(), "x\n".to_string());
    let mut cfg = bare_cfg();
    cfg.context.mode = "append".to_string();
    let (_, _) = run_once(&mut w, &cfg, "go");
    assert!(w.sent[1].0.contains("files: #0=greet.txt"));
    assert!(w.sent[2].0.contains("files: #1=other.txt"));
    assert!(!w.sent[2].0.contains("#0=greet.txt"));
}
