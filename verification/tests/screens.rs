//! The chat screen and the fleet's pages.

use haste::agent::Ev;
use haste::fleet;
use haste::screen::visible_rows;
use haste::screen::wrap;
use haste::screen::Style;
use haste::tui::App;
use haste::tui::Ask;
use haste::tui::Key;
use haste::tui::LOG_CAP;

fn type_line(app: &mut App, line: &str) -> Ask {
    for c in line.chars() {
        app.key(Key::Char(c));
    }
    app.key(Key::Enter)
}

#[test]
fn lines_are_wrapped_without_loss() {
    let line = "αβγδε abcdef";
    for w in 1..20 {
        assert_eq!(wrap(line, w).concat(), line);
    }
    assert_eq!(wrap("abcdef", 4), vec!["abcd".to_string(), "ef".to_string()]);
    assert_eq!(wrap("", 4), vec![String::new()]);
}

#[test]
fn a_window_shows_the_end_of_the_log() {
    let log: Vec<(Style, String)> = (0..10).map(|i| (Style::Plain, format!("line {i}"))).collect();
    let rows = visible_rows(&log, 80, 0, 3);
    let texts: Vec<&str> = rows.iter().map(|(_, t)| t.as_str()).collect();
    assert_eq!(texts, vec!["line 7", "line 8", "line 9"]);
    let up = visible_rows(&log, 80, 8, 3);
    let texts: Vec<&str> = up.iter().map(|(_, t)| t.as_str()).collect();
    assert_eq!(texts, vec!["line 0", "line 1"]);
}

#[test]
fn a_task_starts_and_later_lines_are_delivered() {
    let mut app = App::new("mock", "/work".to_string());
    assert!(matches!(type_line(&mut app, "  fix it "), Ask::Start { task } if task == "fix it"));
    assert!(app.running);
    assert!(matches!(type_line(&mut app, "hurry"), Ask::Deliver { message } if message == "hurry"));
    assert!(matches!(type_line(&mut app, ":cd /x"), Ask::Nothing));
    assert!(matches!(app.key(Key::Escape), Ask::Stop));
    assert!(app.take(Ev::Done("all\ndone".to_string())));
    assert!(!app.running && !app.quit);
    assert!(matches!(type_line(&mut app, ":cd  /x"), Ask::Cd { path, typed } if path == "/x" && typed == " /x"));
    app.moved(" /x", Some("/x".to_string()));
    assert_eq!(app.root, "/x");
    app.moved(" /y", None);
    assert_eq!(app.log.last().unwrap().1, "  no such directory:  /y");
    assert!(matches!(app.key(Key::Escape), Ask::Nothing));
    type_line(&mut app, ":q");
    assert!(app.quit);
}

#[test]
fn events_move_the_screen() {
    let mut app = App::new("mock", "/work".to_string());
    app.take(Ev::Turn(3));
    app.take(Ev::Delta("R a".to_string()));
    assert_eq!(app.live, "R a");
    app.take(Ev::Action(1, "R a".to_string()));
    assert_eq!(app.last_action, "[sub] R a");
    assert_eq!(app.log.last().unwrap().1, "    · R a");
    app.take(Ev::Result(0, "ok".to_string()));
    assert_eq!(app.log.last().unwrap().1, "    ok");
    app.take(Ev::Ctx(5));
    app.take(Ev::Plan("p".to_string()));
    app.take(Ev::Sub("r".to_string(), "busy\nmore".to_string()));
    assert_eq!(app.log.last().unwrap().1, "  [r] busy");
    app.take(Ev::SubDone("r".to_string()));
    assert_eq!(app.log.last().unwrap().1, "  [r] finished");
    assert_eq!((app.turn, app.ctx, app.plan.as_str()), (3, 5, "p"));
    for i in 0..LOG_CAP + 10 {
        app.push(Style::Plain, &format!("{i}"));
    }
    assert_eq!(app.log.len(), LOG_CAP);
}

#[test]
fn the_frame_fits_the_screen() {
    let mut app = App::new("mock", "/work".to_string());
    assert!(app.frame("0", 19, 30).is_none());
    assert!(app.frame("0", 80, 5).is_none());
    type_line(&mut app, "go");
    app.take(Ev::Delta("one\ntwo\n".to_string()));
    let f = app.frame("7", 40, 12).unwrap();
    assert!(f.body.iter().all(|p| p.row < 10));
    assert!(f.body.iter().any(|p| p.text.starts_with("── agent stream")));
    assert!(f.body.iter().any(|p| p.text == "two"));
    assert_eq!(f.status.chars().count(), 40);
    assert!(f.status.starts_with(" /work · turn 0 · 7s · stream on "));
    assert_eq!(f.input, "> ");
    app.key(Key::ToggleStream);
    let g = app.frame("7", 40, 12).unwrap();
    assert!(!g.body.iter().any(|p| p.text.starts_with("── agent stream")));
    app.key(Key::PageUp);
    assert_eq!(app.scroll, 4);
    app.key(Key::PageDown);
    assert_eq!(app.scroll, 0);
}

fn names(list: &[&str]) -> Vec<String> {
    list.iter().map(|n| n.to_string()).collect()
}

#[test]
fn inbox_queue_is_ordered_and_consumed() {
    let mut inbox = names(&["2-b.task", "1-a.task", "notes.txt", ".task"]);
    let first = fleet::next_task(&inbox);
    assert_eq!(first.as_deref(), Some("1-a.task"));
    assert_eq!(fleet::claimed_name("1-a.task"), "1-a.task.claimed");
    inbox.retain(|n| n != "1-a.task");
    assert_eq!(fleet::next_task(&inbox).as_deref(), Some("2-b.task"));
    inbox.retain(|n| n != "2-b.task");
    assert_eq!(fleet::next_task(&inbox), None);
    assert_eq!(fleet::task_text("first\n").as_deref(), Some("first"));
    assert_eq!(fleet::task_text(" \n"), None);
}

#[test]
fn drop_task_lands_in_inbox() {
    let name = fleet::task_name(1_700_000_000_000, 42);
    assert_eq!(name, "1700000000000-42.task");
    assert_eq!(fleet::next_task(&vec![name.clone()]), Some(name));
    assert_eq!(fleet::task_text("hello fleet").as_deref(), Some("hello fleet"));
}

#[test]
fn source_lines_dedup_across_polls() {
    let mut record = String::new();
    let (first, add) = fleet::new_source_lines("ok\nissue-1\nissue-2\n", &record);
    record.push_str(&add);
    assert_eq!(first, vec!["issue-1", "issue-2"]);
    let (second, add) = fleet::new_source_lines("ok\nissue-1\nissue-2\n", &record);
    record.push_str(&add);
    assert!(second.is_empty(), "already-seen lines must not requeue: {second:?}");
    let (third, _) = fleet::new_source_lines("ok\nissue-1\nissue-3\n", &record);
    assert_eq!(third, vec!["issue-3"]);
    let (none, _) = fleet::new_source_lines("exit 1\nissue-9\n", &record);
    assert!(none.is_empty());
}

#[test]
fn fleet_events_read_as_lines() {
    assert_eq!(fleet::fmt_ev(&Ev::Turn(2)).as_deref(), Some("turn 2"));
    assert_eq!(fleet::fmt_ev(&Ev::Result(0, "a\nb".to_string())).as_deref(), Some("  a"));
    assert_eq!(fleet::fmt_ev(&Ev::Done("x\ny".to_string())).as_deref(), Some("DONE: x"));
    assert_eq!(fleet::fmt_ev(&Ev::Delta("x".to_string())), None);
    assert_eq!(fleet::stamp(86_400 + 3_661), "01:01:01");
}

#[test]
fn agents_take_tasks_up_to_their_limit() {
    let mut a = fleet::AgentCfg {
        root: "/r".to_string(),
        persistent: false,
        profile: None,
        config: None,
        source: Some("feed".to_string()),
        interval_s: fleet::INTERVAL_S,
        parallel: 2,
    };
    assert!(fleet::takes_task(&a, 1) && !fleet::takes_task(&a, 2));
    a.parallel = 0;
    assert!(fleet::takes_task(&a, 0) && !fleet::takes_task(&a, 1));
    assert!(fleet::poll_due(&a, None) && fleet::poll_due(&a, Some(60)) && !fleet::poll_due(&a, Some(59)));
    assert_eq!(fleet::announce("x", &a), "swift: one-shot  x @ /r ← `feed`");
    a.persistent = true;
    assert!(fleet::takes_task(&a, 9));
}

#[test]
fn pages_follow_the_keys() {
    let mut p = fleet::Pages::new(2);
    p.key(fleet::Key::Down);
    p.key(fleet::Key::Down);
    assert_eq!(p.selected, 1);
    p.key(fleet::Key::Enter);
    assert_eq!(p.page, 2);
    for c in " hi ".chars() {
        p.key(fleet::Key::Char(c));
    }
    assert!(matches!(p.key(fleet::Key::Enter), fleet::Ask::Send { agent: 1, line } if line == "hi"));
    p.key(fleet::Key::Next);
    assert_eq!(p.page, 0);
    p.key(fleet::Key::Back);
    assert_eq!(p.page, 2);
    p.key(fleet::Key::Escape);
    assert_eq!(p.page, 0);
    assert!(matches!(p.key(fleet::Key::Interrupt), fleet::Ask::Quit));
}

#[test]
fn pages_show_their_agents() {
    let mut pane = fleet::Pane::new();
    pane.take(Ev::Turn(4), "12:00:00");
    pane.take(Ev::Ctx(1500), "12:00:00");
    pane.take(Ev::Action(0, "X ls".to_string()), "12:00:00");
    pane.take(Ev::Result(0, "exit 1\nboom".to_string()), "12:00:00");
    assert_eq!(pane.log.last().map(|(s, t)| (*s, t.as_str())), Some((Style::Failed, "boom")));
    pane.take(Ev::Say("task: go".to_string()), "12:00:00");
    assert_eq!(pane.log.last().unwrap().0, Style::User);
    assert_eq!(fleet::page_head(&pane, 0, "1.5", 80), " ⠋ turn 4 · ctx 1.5k");
    assert_eq!(
        fleet::overview_row("bob", &pane, true, 1, "1.5", 80),
        "> bob            ⠙ turn 4   ctx   1.5k  X ls"
    );
    assert_eq!(fleet::tab_bar(&names(&["bob"]), &vec![true], 1, 20), " fleet  [bob*]      ");
    pane.take(Ev::Done("fine".to_string()), "12:00:00");
    assert!(!pane.running);
    assert_eq!(pane.log.last().unwrap().1, "── finished 12:00:00 ──");
    assert_eq!(fleet::prompt_line(1, "abc", 4), "abc");
    assert_eq!(fleet::page_rows(&pane, 80, 8).len(), 2);
}

#[test]
fn a_fleet_page_is_laid_out() {
    let fleet_names = names(&["ann", "bob"]);
    let mut ann = fleet::Pane::new();
    ann.take(Ev::Turn(4), "12:00:00");
    let mut bob = fleet::Pane::new();
    for i in 0..10 {
        bob.push(Style::Dim, &format!("line {i}"));
    }
    let panes = vec![ann, bob];
    let thousands = names(&["0.0", "0.0"]);
    let mut pages = fleet::Pages::new(2);
    assert!(pages.frame(&fleet_names, &panes, 0, &thousands, 29, 12).is_none());
    assert!(pages.frame(&fleet_names, &panes, 0, &thousands, 40, 7).is_none());

    let shown = pages.frame(&fleet_names, &panes, 0, &thousands, 40, 12).unwrap();
    assert_eq!(shown.bar, "[fleet]  ann*   bob                     ");
    let rows: Vec<(usize, Style)> = shown.body.iter().map(|p| (p.row, p.style)).collect();
    assert_eq!(
        rows,
        vec![(2, Style::Act), (4, Style::Dim), (8, Style::Dim), (9, Style::Dim), (10, Style::Dim)]
    );
    assert!(shown.body[0].text.starts_with("> ann "));
    assert!(shown.body[1].text.starts_with("  bob "));
    assert_eq!(shown.body[2].text, "─".repeat(39));

    pages.key(fleet::Key::Back);
    pages.key(fleet::Key::Char('h'));
    let shown = pages.frame(&fleet_names, &panes, 0, &thousands, 40, 12).unwrap();
    assert_eq!(shown.bar, " fleet   ann*  [bob]                    ");
    let rows: Vec<(usize, &str)> = shown.body.iter().map(|p| (p.row, p.text.as_str())).collect();
    let border = "─".repeat(39);
    assert_eq!(
        rows,
        vec![
            (1, " idle · ctx 0t"),
            (2, "line 4"),
            (3, "line 5"),
            (4, "line 6"),
            (5, "line 7"),
            (6, "line 8"),
            (7, "line 9"),
            (8, border.as_str()),
            (9, "> h"),
            (10, border.as_str()),
        ]
    );

    // A short log is anchored at the bottom.
    let mut short = fleet::Pane::new();
    short.push(Style::Plain, "only");
    let panes = vec![short];
    let mut pages = fleet::Pages::new(1);
    pages.key(fleet::Key::Next);
    let shown = pages.frame(&names(&["ann"]), &panes, 0, &names(&["0.0"]), 40, 12).unwrap();
    assert_eq!((shown.body[1].row, shown.body[1].text.as_str()), (7, "only"));
}

#[test]
fn a_record_of_many_polls_is_remembered() {
    let mut record = String::new();
    for out in ["ok\na\nb\n", "ok\nb\nc\n", "ok\nd\n"] {
        let (fresh, add) = fleet::new_source_lines(out, &record);
        assert!(!fresh.is_empty());
        record.push_str(&add);
    }
    assert_eq!(record.lines().count(), 4);
    for out in ["ok\na\nb\n", "ok\nb\nc\n", "ok\nd\na\n"] {
        assert_eq!(fleet::new_source_lines(out, &record), (Vec::new(), String::new()));
    }
}

#[test]
fn the_fleet_command_line_is_read() {
    assert!(matches!(fleet::parse(&names(&["fleet.toml"])), fleet::Command::Run { path } if path == "fleet.toml"));
    assert!(matches!(
        fleet::parse(&names(&["send", "bob", "do", "it"])),
        fleet::Command::Send { agent, task } if agent == "bob" && task == "do it"
    ));
    assert!(matches!(fleet::parse(&names(&["send", "bob"])), fleet::Command::Usage));
    assert!(matches!(fleet::parse(&Vec::new()), fleet::Command::Usage));
}

#[test]
fn the_side_column_shows_the_plan_and_who_is_out() {
    let mut app = App::new("mock", "/work".to_string());
    assert!(app.frame("0", 100, 30).unwrap().side.is_empty());
    app.take(Ev::Plan("goal\n[ ] s1 first".to_string()));
    app.take(Ev::Sub("scout".to_string(), "R a.rs\nmore".to_string()));
    app.take(Ev::Sub("critic".to_string(), "G bug".to_string()));
    app.take(Ev::Sub("scout".to_string(), "R b.rs".to_string()));
    let f = app.frame("0", 100, 30).unwrap();
    assert_eq!(
        f.side,
        vec![
            "goal".to_string(),
            "[ ] s1 first".to_string(),
            "[scout] R b.rs".to_string(),
            "[critic] G bug".to_string(),
        ]
    );
    assert_eq!(f.side_at, 70);
    assert!(f.body.iter().all(|p| p.text.chars().count() <= 69));
    assert!(app.frame("0", 79, 30).unwrap().side.is_empty());
    app.take(Ev::SubDone("scout".to_string()));
    let f = app.frame("0", 100, 7).unwrap();
    assert_eq!(f.side, vec!["goal".to_string(), "[ ] s1 first".to_string(), "[critic] G bug".to_string()]);
    app.take(Ev::Done("over".to_string()));
    assert_eq!(app.frame("0", 100, 30).unwrap().side.len(), 2);
}
