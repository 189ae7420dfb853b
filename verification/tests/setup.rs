//! Configs, mods, plans, versions, the command line, and the orientation.

use haste::bootstrap::git_output;
use haste::bootstrap::maps_dir;
use haste::bootstrap::workspace_state;
use haste::bootstrap::Dir;
use haste::bootstrap::Facts;
use haste::bootstrap::Git;
use haste::bootstrap::MAX_CHARS;
use haste::cli;
use haste::client::completion_text;
use haste::client::endpoint_url;
use haste::client::http_error;
use haste::client::served_ids;
use haste::config::mode_for;
use haste::config::Config;
use haste::config::CtxCfg;
use haste::config::DistillCfg;
use haste::config::ExecCfg;
use haste::config::ModelCfg;
use haste::config::PlanCfg;
use haste::config::PromptCfg;
use haste::config::ToolCfg;
use haste::config::VerifyCfg;
use haste::mods::apply;
use haste::mods::complete;
use haste::mods::home_relative;
use haste::mods::Manifest;
use haste::mods::Mod;
use haste::plan::forgive_commas;
use haste::plan::Plan;
use haste::plan::PlanTick;
use haste::plan::Step;
use haste::table::Table;
use haste::turn::tool_output;
use haste::turn::ToolCall;
use haste::update::check_size;
use haste::update::newer;
use haste::update::notice;
use haste::update::plan_update;
use haste::update::triple;
use haste::update::asset_name;
use haste::update::Update;
use std::time::Instant;

fn model(url: &str, name: &str) -> ModelCfg {
    ModelCfg {
        base_url: url.to_string(),
        model: name.to_string(),
        api_key_env: None,
        max_tokens: 32768,
        temperature: None,
        prefix_cache: true,
        extra_body: None,
        effort: Table::new(),
        think: None,
    }
}

fn cfg() -> Config {
    Config {
        model: model("http://127.0.0.1:8000/v1", "default"),
        models: Table::new(),
        context: CtxCfg::default(),
        tool: Table::new(),
        profile: Table::new(),
        distill: DistillCfg::default(),
        execution: ExecCfg::for_os(false),
        plan: PlanCfg::default(),
        verify: VerifyCfg::default(),
        prompt: PromptCfg::default(),
        mods_dir: String::new(),
        prompt_extra: String::new(),
        mod_notes: Vec::new(),
    }
}

fn fields(rows: &[(&str, &str)]) -> Table<String> {
    let mut t = Table::new();
    for (k, v) in rows {
        t.insert(k.to_string(), v.to_string());
    }
    t
}

#[test]
fn model_alternates_and_effort_presets_apply() {
    let mut c0 = cfg();
    c0.model = model("http://localhost:1/v1", "base");
    c0.model.extra_body = Some(fields(&[("top_p", "0.8")]));
    c0.model.effort.insert("high".to_string(), fields(&[("reasoning_effort", "high")]));
    let mut alt = model("http://localhost:2/v1", "other");
    alt.effort.insert("xhigh".to_string(), fields(&[("effort", "xhigh")]));
    c0.models.insert("alt".to_string(), alt);

    let c = Config::effective(c0.clone(), &None, &Some("high".into()));
    assert_eq!(c.model.model, "base");
    let eb = c.model.extra_body.as_ref().unwrap();
    assert_eq!(eb.get("reasoning_effort").map(|v| v.as_str()), Some("high"));
    assert!(eb.contains_key("top_p"), "existing extra_body keys must survive");
    let c2 = Config::effective(c0.clone(), &Some("alt".into()), &Some("xhigh".into()));
    assert_eq!(c2.model.model, "other");
    assert_eq!(
        c2.model.extra_body.as_ref().unwrap().get("effort").map(|v| v.as_str()),
        Some("xhigh")
    );
    assert!(c0.clone().select(&Some("nope".into()), &None).is_err());
    assert!(c0.select(&None, &Some("nope".into())).is_err());
}

fn tool(desc: &str, cmd: &str) -> ToolCfg {
    ToolCfg {
        desc: desc.to_string(),
        cmd: cmd.to_string(),
        prune: None,
        timeout_ms: None,
        env: Table::new(),
        override_native: false,
        poll: false,
    }
}

fn one_mod(path: &str, name: &str, prompt: &str, verb: &str, t: ToolCfg, env: &[(&str, &str)]) -> Table<Mod> {
    let mut tools = Table::new();
    tools.insert(verb.to_string(), t);
    let manifest = Manifest {
        name: name.to_string(),
        prompt: prompt.to_string(),
        env: fields(env),
        tool: tools,
    };
    let mut mods = Table::new();
    mods.insert("demo".to_string(), Mod { path: path.to_string(), manifest: Ok(manifest) });
    mods
}

#[test]
fn loads_tools_prompt_and_env_with_mod_substitution() {
    let mods = one_mod(
        "/mods\\demo",
        "demo",
        "Demo mod: use K wisely.",
        "K",
        tool("demo tool", "python {mod}/run.py {args}"),
        &[("DEMO_KEY", "v1")],
    );
    let mut c = cfg();
    let notes = apply(&mut c, mods);
    assert!(notes.iter().any(|n| n.contains("demo: loaded (K)")), "{notes:?}");
    let t = c.tool.get("K").unwrap();
    assert!(t.cmd.contains("/demo/run.py") || t.cmd.contains("demo/run.py"), "{}", t.cmd);
    assert!(!t.cmd.contains("{mod}"));
    assert_eq!(t.env.get("DEMO_KEY").map(|v| v.as_str()), Some("v1"));
    assert!(c.prompt_extra.contains("use K wisely"));
    let bad = one_mod("/mods/demo", "", "", "R", tool("bad", "x"), &[]);
    let mut c2 = cfg();
    let notes2 = apply(&mut c2, bad);
    assert!(notes2.iter().any(|n| n.contains("invalid")), "{notes2:?}");
}

#[test]
fn mods_never_take_a_verb_that_is_taken() {
    let mut c = cfg();
    c.tool.insert("K".to_string(), tool("mine", "first"));
    let notes = apply(&mut c, one_mod("/m/demo", "demo", "", "K", tool("theirs", "second"), &[]));
    assert!(notes.iter().any(|n| n == "mod demo: tool 'K' already taken — skipped"), "{notes:?}");
    assert!(notes.iter().any(|n| n == "mod demo: loaded (prompt only)"), "{notes:?}");
    assert_eq!(c.tool.get("K").unwrap().cmd, "first");
}

#[test]
fn broken_mods_are_skipped_with_a_reason() {
    let mut mods = Table::new();
    mods.insert("b".to_string(), Mod { path: "/m/b".to_string(), manifest: Err("bad toml".to_string()) });
    let c = complete(cfg(), mods, false, "/home/me/.haste.toml").unwrap();
    assert_eq!(
        c.mod_notes,
        vec![
            "no config found — using built-in default (http://127.0.0.1:8000/v1). Run `haste init` to create /home/me/.haste.toml".to_string(),
            "mod b: SKIPPED — bad toml".to_string(),
        ]
    );
    let mut wrong = cfg();
    wrong.tool.insert("kk".to_string(), tool("d", "c"));
    assert!(complete(wrong, Table::new(), true, "").is_err());
}

#[test]
fn home_paths_are_recognised() {
    assert_eq!(home_relative("~/x/y"), Some("x/y".to_string()));
    assert_eq!(home_relative("~\\x"), Some("x".to_string()));
    assert_eq!(home_relative("/x"), None);
}

fn step(id: &str, status: &str, needs: &[&str], verify: Option<&str>) -> Step {
    Step {
        id: id.to_string(),
        what: String::new(),
        status: status.to_string(),
        needs: needs.iter().map(|n| n.to_string()).collect(),
        verify: verify.map(|v| v.to_string()),
    }
}

#[test]
fn parse_compact_and_open() {
    let mut schema = step("schema", "done", &[], None);
    schema.what = "tables".to_string();
    let p = Plan {
        goal: "auth".to_string(),
        steps: vec![
            schema,
            step("api", "doing", &["schema"], Some("echo ok")),
            step("ui", "todo", &["api"], None),
        ],
    };
    assert_eq!(p.open_ids(), vec!["api", "ui"]);
    let c = p.compact();
    assert!(c.contains("[x] schema"), "{c}");
    assert!(c.contains("[>] api"), "{c}");
    assert!(c.contains("[ ] ui") && c.contains("blocked by: api"), "{c}");
}

#[test]
fn a_pass_reverts_what_does_not_verify() {
    let p = Plan { goal: "g".to_string(), steps: vec![step("a", "done", &[], Some("check"))] };
    let mut t = PlanTick::new(p);
    let seen = Table::new();
    assert_eq!(t.advance(&seen), Some("check".to_string()));
    t.verified("exit 1\nboom");
    assert_eq!(t.advance(&seen), None);
    assert!(t.dirty);
    assert_eq!(t.plan.steps[0].status, "doing");
    assert_eq!(t.fails, vec!["a".to_string()]);
    let mut p = t.plan;
    assert!(p.set_status("zzz", "done").is_err());
    assert!(p.set_status("a", "bogus").is_err());
    assert!(p.set_status("a", "skip").is_ok());
}

#[test]
fn commas_inside_strings_are_kept() {
    assert_eq!(forgive_commas("[1, \"a,]\" , ]"), "[1, \"a,]\" ]");
}

#[test]
fn version_triples_compare() {
    assert!(triple("v0.2.0") > triple("0.1.9"));
    assert!(triple("1.0.0") > triple("v0.99.99"));
    assert_eq!(triple("v1.2.3-rc1"), (1, 2, 3));
    assert!(triple("0.1.0") >= (0, 1, 0));
    assert!(newer("v0.2.0", "0.1.9") && !newer("0.1.9", "0.1.9"));
}

#[test]
fn releases_decide_the_update() {
    let body = "{\"tag_name\":\"v9.0.0\",\"assets\":[{\"name\":\"other\"},{\"name\":\"haste-linux-x86_64\",\"browser_download_url\":\"http://x/y\"}]}";
    let want = asset_name(false, false);
    match plan_update(body, want, "0.1.0") {
        Ok(Update::Fetch { tag, url }) => {
            assert_eq!((tag.as_str(), url.as_str()), ("v9.0.0", "http://x/y"));
        }
        _ => panic!("an update was published"),
    }
    match plan_update(body, want, "9.0.0") {
        Ok(Update::Current { message }) => assert_eq!(message, "already up to date (v9.0.0)"),
        _ => panic!("nothing newer was published"),
    }
    assert_eq!(
        plan_update(body, asset_name(true, false), "0.1.0").err(),
        Some("release v9.0.0 has no asset 'haste-windows-x86_64.exe'".to_string())
    );
    assert_eq!(plan_update("{}", want, "0.1.0").err(), Some("no releases published yet".to_string()));
    assert!(plan_update("{", want, "0.1.0").err().unwrap().starts_with("release json: EOF"));
    assert_eq!(
        notice(body, "0.1.0"),
        Some("update: v9.0.0 available (you have v0.1.0) — run `haste update`".to_string())
    );
    assert_eq!(notice(body, "9.0.0"), None);
    assert_eq!(notice("nonsense", "0.1.0"), None);
    assert!(check_size(100_000).is_ok());
    assert_eq!(
        check_size(7),
        Err("downloaded asset suspiciously small (7 bytes) — aborting".to_string())
    );
}

fn read_dir(files: &[&str], dirs: Vec<(&str, Dir)>) -> Dir {
    let mut t = Table::new();
    for (n, d) in dirs {
        t.insert(n.to_string(), d);
    }
    Dir::Read { files: files.iter().map(|f| f.to_string()).collect(), dirs: t }
}

fn facts(tree: Dir) -> Facts {
    Facts { windows: false, shell: "sh".to_string(), git: None, tree, instructions: Vec::new() }
}

#[test]
fn orients_in_own_repo() {
    let src = read_dir(
        &[
            "agent.rs", "bootstrap.rs", "client.rs", "config.rs", "dsl.rs", "ledger.rs", "main.rs",
            "mods.rs", "outline.rs", "plan.rs", "render.rs", "shelld.rs", "tools.rs", "tui.rs", "update.rs",
        ],
        Vec::new(),
    );
    let target = read_dir(&["junk"], Vec::new());
    let root = read_dir(&["README.md", "Cargo.toml"], vec![("src", src), ("target", target)]);
    let s = workspace_state(&facts(root));
    assert!(s.contains("project: Rust"), "{s}");
    assert!(s.contains("src/ [") && s.contains(".rs"), "{s}");
    assert!(s.contains("Cargo.toml"), "{s}");
    assert!(s.len() <= MAX_CHARS + 200, "bootstrap too big: {}", s.len());
    assert!(!s.contains("junk"), "{s}");
    assert_eq!(
        s,
        "--- workspace ---\nos: unix — X runs sh\nproject: Rust (cargo build / cargo test)\nlayout (paths below are RELATIVE to the workspace root):\n  (root) [Cargo.toml README.md]\n    src/ [15 .rs]\n"
    );
}

#[test]
fn no_git_spawn_outside_repos() {
    let f = facts(read_dir(&["x.py"], Vec::new()));
    let t = Instant::now();
    let s = workspace_state(&f);
    assert!(t.elapsed().as_millis() < 100, "bootstrap slow: {:?}", t.elapsed());
    assert!(!s.contains("git:"), "{s}");
}

#[test]
fn git_state_and_instructions_are_pinned() {
    let mut f = facts(read_dir(&["go.mod"], Vec::new()));
    f.git = Some(Git {
        branch: "main".to_string(),
        status: Some(" M a\n?? b".to_string()),
        log: Some("1 x\n2 y".to_string()),
    });
    f.instructions.push(("AGENTS.md".to_string(), "be kind\n".to_string()));
    let s = workspace_state(&f);
    assert!(s.contains("git: main, 2 uncommitted:  M a ?? b\nrecent: 1 x | 2 y\n"), "{s}");
    assert!(s.contains("project: Go"), "{s}");
    assert!(s.ends_with("--- AGENTS.md ---\nbe kind\n"), "{s}");
    assert_eq!(git_output(true, " x \n"), Some("x".to_string()));
    assert_eq!(git_output(true, " \n"), None);
    assert_eq!(git_output(false, "x"), None);
    assert!(maps_dir("src") && !maps_dir("node_modules") && !maps_dir(".cache"));
}

#[test]
fn huge_trees_stay_within_the_limit() {
    let mut dirs = Vec::new();
    let names: Vec<String> = (0..200).map(|i| format!("directory_number_{i}")).collect();
    for n in &names {
        dirs.push((n.as_str(), read_dir(&["some_file_with_a_long_name.txt"], Vec::new())));
    }
    let s = workspace_state(&facts(read_dir(&["a"], dirs)));
    assert!(s.len() <= MAX_CHARS, "{}", s.len());
    assert!(s.contains("directory_number_0/"));
}

fn words(line: &str) -> Vec<String> {
    line.split_whitespace().map(|w| w.to_string()).collect()
}

#[test]
fn the_command_line_is_read() {
    match cli::parse(&words("-c x.toml fix --events the bug -m big -C")) {
        cli::Command::Run { options } => {
            assert_eq!(options.config.as_deref(), Some("x.toml"));
            assert_eq!(options.model.as_deref(), Some("big"));
            assert_eq!(options.root, None);
            assert_eq!(options.task, "fix the bug");
            assert!(options.events && !options.tui);
            assert!(!cli::interactive(&options));
        }
        _ => panic!("not a run"),
    }
    assert!(matches!(cli::parse(&words("fix -V")), cli::Command::Version));
    assert!(matches!(cli::parse(&words("-h")), cli::Command::Help));
    assert!(matches!(cli::parse(&words("init")), cli::Command::Init));
    assert!(matches!(cli::parse(&words("update now")), cli::Command::Update));
    for flag in ["--effort", "--reason", "-r"] {
        match cli::parse(&words(&format!("{flag} high fix it"))) {
            cli::Command::Run { options } => {
                assert_eq!(options.effort.as_deref(), Some("high"));
                assert_eq!(options.task, "fix it");
            }
            _ => panic!("a run"),
        }
    }
    match cli::parse(&words("--tui")) {
        cli::Command::Run { options } => assert!(cli::interactive(&options)),
        _ => panic!("not a run"),
    }
}

#[test]
fn replies_of_an_endpoint_are_read() {
    assert_eq!(
        completion_text("{\"choices\":[{\"message\":{\"content\":\"hi\"}}]}"),
        Ok("hi".to_string())
    );
    assert_eq!(completion_text("{}"), Err("no content in response".to_string()));
    assert_eq!(
        completion_text("nope"),
        Err("bad json: expected ident at line 1 column 2".to_string())
    );
    assert_eq!(http_error(429, "slow down"), "HTTP 429: slow down");
    assert_eq!(endpoint_url("http://x/v1//", "/models"), "http://x/v1/models");
    assert_eq!(served_ids("{\"data\":[{\"id\":\"a\"},{\"id\":\"b\"}]}"), vec!["a".to_string(), "b".to_string()]);
}

#[test]
fn instruction_files_are_looked_for_by_name() {
    assert_eq!(
        CtxCfg::default().instruction_files,
        vec!["HASTE.md".to_string(), "AGENTS.md".to_string()]
    );
}

#[test]
fn a_prefix_cache_selects_append_mode() {
    assert_eq!(mode_for(None, true), "append");
    assert_eq!(mode_for(None, false), "working_set");
    assert_eq!(mode_for(Some("working_set".to_string()), true), "working_set");
}

#[test]
fn tool_output_is_capped_before_it_is_pruned() {
    let call = ToolCall {
        line: String::new(),
        timeout_ms: 1,
        chain: "keep:z".to_string(),
        distills: false,
    };
    let raw = "z first\nb\nz last".to_string();
    assert!(tool_output(&call, raw.clone(), 100).contains("z last"));
    let cut = tool_output(&call, raw, 10);
    assert!(cut.contains("z first") && !cut.contains("z last"), "{cut}");
}
