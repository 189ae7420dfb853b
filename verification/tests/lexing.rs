//! The command language.

use haste::agent::action_of;
use haste::agent::clean_final;
use haste::agent::rescue_done;
use haste::config::Config;
use haste::config::CtxCfg;
use haste::config::DistillCfg;
use haste::config::ExecCfg;
use haste::config::ModelCfg;
use haste::config::PlanCfg;
use haste::config::PromptCfg;
use haste::config::VerifyCfg;
use haste::dsl::Cmd;
use haste::dsl::Lexer;
use haste::table::Table;
use haste::text::is_white_space;
use haste::text::trim;
use haste::turn::command_key;

fn all(input: &str) -> Vec<Cmd> {
    let mut lx = Lexer::new();
    let mut out = Vec::new();
    let chars: Vec<char> = input.chars().collect();
    for chunk in chars.chunks(3) {
        let piece: String = chunk.iter().collect();
        lx.feed(&piece, &mut out);
    }
    lx.finish(&mut out);
    out
}

#[test]
fn parses_batch() {
    let cmds = all("R 3 10:20\nG \"fn main\" src/\nX cargo check\n");
    assert_eq!(cmds.len(), 3);
    assert_eq!(cmds[0], Cmd::Read { target: "3".into(), range: Some((10, 20)) });
    assert_eq!(cmds[1], Cmd::Grep { pat: "fn main".into(), target: Some("src/".into()) });
}

#[test]
fn payload_and_escape() {
    let cmds = all("E 2 5:6\nlet x = 1;\n..hidden\n.\nD fixed\n");
    assert_eq!(
        cmds[0],
        Cmd::Edit { target: "2".into(), a: 5, b: 6, body: "let x = 1;\n.hidden".into() }
    );
    assert_eq!(cmds[1], Cmd::Done { msg: "fixed".into() });
}

#[test]
fn cc_dialect_accepts_all_three_notations() {
    let mut lx = Lexer::new_dialect(true);
    let mut out = Vec::new();
    lx.feed(
        "{\"tool\":\"Bash\",\"input\":{\"command\":\"ls\"}}\n\
         ASSISTANT (tool call) Read input={\"file_path\":\"a.py\"}\n\
         Grep input={\"pattern\":\"foo\"}\n",
        &mut out,
    );
    lx.finish(&mut out);
    assert_eq!(out.len(), 3, "{out:?}");
    assert_eq!(out[0], Cmd::Exec { line: "ls".into() });
    assert_eq!(out[1], Cmd::Read { target: "a.py".into(), range: None });
    assert_eq!(out[2], Cmd::Grep { pat: "foo".into(), target: None });
}

#[test]
fn ignores_prose() {
    let cmds = all("Sure, let me look at that.\nR 1\n");
    assert_eq!(cmds.len(), 1);
}

#[test]
fn unterminated_payload_applies_on_finish() {
    let cmds = all("N src/new.rs\nfn f() {}");
    assert_eq!(cmds[0], Cmd::New { path: "src/new.rs".into(), body: "fn f() {}".into() });
}

#[test]
fn any_chunking_gives_the_same_commands() {
    let input = "R 1\nS <<\nα β\n..x\n.\nA researcher find it\nX <<\na\nb\n.\nprose here\nP s1 done\nB why\nD end\nof it\n";
    let whole = all(input);
    let chars: Vec<char> = input.chars().collect();
    for size in 1..9 {
        let mut lx = Lexer::new();
        let mut out = Vec::new();
        for chunk in chars.chunks(size) {
            let piece: String = chunk.iter().collect();
            lx.feed(&piece, &mut out);
        }
        lx.finish(&mut out);
        assert_eq!(out, whole, "chunks of {size}");
        assert_eq!(lx.dropped_count(), 1);
        assert_eq!(lx.dropped_prose(), "prose here\n");
    }
    assert_eq!(whole.len(), 7);
    assert_eq!(whole[1], Cmd::Say { text: "α β\n.x".into() });
    assert_eq!(whole[2], Cmd::Agent { profile: "researcher".into(), task: "find it".into() });
    assert_eq!(whole[3], Cmd::Exec { line: "a\nb".into() });
    assert_eq!(whole[4], Cmd::PlanStep { id: "s1".into(), status: "done".into() });
    assert_eq!(whole[5], Cmd::Think { why: "why".into() });
    assert_eq!(whole[6], Cmd::Done { msg: "end\nof it".into() });
}

#[test]
fn the_replace_command_belongs_to_the_other_dialect() {
    let line = "{\"tool\":\"Edit\",\"input\":{\"file_path\":\"a.py\",\"old_string\":\"x\",\"new_string\":\"y\"}}\n";
    let mut lx = Lexer::new_dialect(true);
    let mut out = Vec::new();
    lx.feed(line, &mut out);
    lx.finish(&mut out);
    assert_eq!(
        out,
        vec![Cmd::Replace { target: "a.py".into(), old: "x".into(), new: "y".into() }]
    );
    assert!(all(line).is_empty());
}

#[test]
fn actions_read_back_as_commands() {
    for line in ["R 3 10:20", "X cargo check", "O src/lib.rs", "V pic.png", "P s1 done"] {
        let cmds = all(&format!("{line}\n"));
        assert_eq!(cmds.len(), 1);
        assert_eq!(action_of(&cmds[0]), line);
    }
}

#[test]
fn different_commands_have_different_keys() {
    let a = command_key(&Cmd::Read { target: "1".into(), range: None });
    let b = command_key(&Cmd::Read { target: "1".into(), range: Some((1, 2)) });
    let c = command_key(&Cmd::Exec { line: "1".into() });
    assert!(a != b && b != c && a != c);
    assert_eq!(a, command_key(&Cmd::Read { target: "1".into(), range: None }));
}

#[test]
fn scaffolding_is_cut_from_final_messages() {
    assert_eq!(clean_final("answer\n## LOG\njunk"), "answer");
    assert_eq!(clean_final("just this\n"), "just this");
}

fn cfg() -> Config {
    Config {
        model: ModelCfg {
            base_url: String::new(),
            model: String::new(),
            api_key_env: None,
            max_tokens: 1,
            temperature: None,
            prefix_cache: true,
            extra_body: None,
            effort: Table::new(),
            think: None,
        },
        models: Table::new(),
        context: CtxCfg::default(),
        tool: Table::new(),
        profile: Table::new(),
        distill: DistillCfg::default(),
        execution: ExecCfg::for_os(false),
        plan: PlanCfg::default(),
        verify: VerifyCfg::default(),
        prompt: PromptCfg::default(),
        mods_dir: String::new(),
        prompt_extra: String::new(),
        mod_notes: Vec::new(),
    }
}

#[test]
fn work_in_a_final_message_is_rescued() {
    let cmds = vec![Cmd::Done { msg: "let me check\nX echo hi".into() }];
    assert_eq!(
        rescue_done(cmds, &cfg()),
        vec![Cmd::Say { text: "let me check".into() }, Cmd::Exec { line: "echo hi".into() }]
    );
    let plain = vec![Cmd::Done { msg: "all good\nnothing else".into() }];
    assert_eq!(rescue_done(plain.clone(), &cfg()), plain);
}

#[test]
fn white_space_is_what_the_standard_library_says() {
    for n in 0..=0x10FFFFu32 {
        if let Some(c) = char::from_u32(n) {
            assert_eq!(is_white_space(c), c.is_whitespace(), "U+{n:04X}");
        }
    }
    assert_eq!(trim("\u{3000} a b \n"), "a b");
}
