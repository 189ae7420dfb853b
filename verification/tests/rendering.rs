//! The ledger and its rendered documents.

use haste::config::CtxCfg;
use haste::ledger::calibrate;
use haste::ledger::est_tokens;
use haste::ledger::Kind;
use haste::ledger::Ledger;
use haste::ledger::CPT_MILLI;
use haste::render::fold;
use haste::render::Renderer;
use std::time::Instant;

#[test]
fn renderer_stress_huge_ledger() {
    let mut ledger = Ledger::new();
    ledger.push(Kind::Task, 0, "stress task".into(), None);
    for turn in 1..=2500u32 {
        ledger.push(Kind::Action, turn, format!("X step {turn}"), None);
        ledger.push(
            Kind::Result,
            turn,
            format!("output for step {turn}\n{}", format!("detail {turn} line\n").repeat(30)),
            Some(turn % 120),
        );
        ledger.push(Kind::Action, turn, format!("R {}", turn % 120), None);
        ledger.push(
            Kind::Result,
            turn,
            format!("#{} file.rs 1:40 of 40\n{}", turn % 120, "1:code line\n".repeat(40)),
            Some(turn % 120),
        );
    }
    let cfg = CtxCfg::default();
    let mut r = Renderer::new();
    let doc = r.render(&ledger, &cfg, 2501, CPT_MILLI);
    let t = Instant::now();
    let iters = 20;
    for _ in 0..iters {
        assert_eq!(doc, r.render(&ledger, &cfg, 2501, CPT_MILLI));
    }
    let ws_ms = t.elapsed().as_micros() as f64 / iters as f64 / 1000.0;
    let mut acfg = cfg.clone();
    acfg.mode = "append".into();
    let mut ra = Renderer::new();
    let adoc = ra.render(&ledger, &acfg, 2501, CPT_MILLI);
    let t2 = Instant::now();
    for _ in 0..iters {
        assert_eq!(adoc, ra.render(&ledger, &acfg, 2501, CPT_MILLI));
    }
    let ap_ms = t2.elapsed().as_micros() as f64 / iters as f64 / 1000.0;
    assert!(doc.contains("stress task") && adoc.contains("stress task"));
    println!("working_set {} chars in {ws_ms:.2}ms | append {} chars in {ap_ms:.2}ms", doc.len(), adoc.len());
    assert!(ws_ms < 50.0, "working_set render too slow: {ws_ms}ms");
    assert!(ap_ms < 50.0, "append render too slow: {ap_ms}ms");
}

#[test]
fn renderer_bench_1000_entries() {
    let mut ledger = Ledger::new();
    ledger.push(Kind::Task, 0, "benchmark task".into(), None);
    for turn in 1..=250u32 {
        ledger.push(Kind::Action, turn, format!("X step {turn}"), None);
        ledger.push(
            Kind::Result,
            turn,
            format!("output for step {turn}\n{}", "detail line\n".repeat(20)),
            Some(turn % 40),
        );
    }
    let cfg = CtxCfg::default();
    let mut r = Renderer::new();
    let doc = r.render(&ledger, &cfg, 251, CPT_MILLI);
    let t = Instant::now();
    let iters = 100;
    for _ in 0..iters {
        let _ = r.render(&ledger, &cfg, 251, CPT_MILLI);
    }
    let per = t.elapsed().as_micros() as f64 / iters as f64;
    assert!(per < 5000.0, "render too slow: {per}us");
    assert!(doc.len() / 4 < cfg.budget_tokens + 2000, "doc {} chars", doc.len());
}

#[test]
fn append_documents_only_grow() {
    let mut ledger = Ledger::new();
    let mut cfg = CtxCfg::default();
    cfg.mode = "append".into();
    let mut r = Renderer::new();
    ledger.push(Kind::Task, 0, "a task".into(), None);
    let first = r.render(&ledger, &cfg, 1, CPT_MILLI);
    ledger.push(Kind::Action, 1, "X echo".into(), None);
    ledger.push(Kind::Result, 1, "ok\nout".into(), None);
    let second = r.render(&ledger, &cfg, 2, CPT_MILLI);
    assert!(second.starts_with(&first));
    assert!(second.len() > first.len());
}

#[test]
fn a_seal_keeps_tasks_and_the_tail() {
    let mut ledger = Ledger::new();
    ledger.push(Kind::Task, 0, "standing order".into(), None);
    for i in 1..=10u32 {
        ledger.push(Kind::Result, i, format!("result {i}"), None);
    }
    let mut cfg = CtxCfg::default();
    cfg.mode = "append".into();
    let mut r = Renderer::new();
    assert!(r.seal_due(&ledger, &cfg, 5, None, CPT_MILLI));
    assert!(!r.seal_due(&ledger, &cfg, 5, Some(4), CPT_MILLI));
    r.seal_summary(&ledger, 2, "the briefing".into());
    let doc = r.render(&ledger, &cfg, 11, CPT_MILLI);
    assert!(doc.contains("standing order") && doc.contains("the briefing"));
    assert!(doc.contains("result 10") && doc.contains("result 9") && !doc.contains("result 8"));
    assert!(!r.seal_due(&ledger, &cfg, 0, None, CPT_MILLI), "seals keep their distance");
}

#[test]
fn duplicates_become_pointers() {
    let mut ledger = Ledger::new();
    ledger.push(Kind::Action, 1, "X ls".into(), None);
    ledger.push(Kind::Result, 1, "ok\na b c".into(), None);
    let p = ledger.dup_of("ok\na b c").unwrap();
    assert_eq!(p, "(= identical to the earlier result of `X ls` above — content unchanged)");
    assert!(ledger.dup_of("ok\nother").is_none());
}

#[test]
fn estimates_follow_what_is_billed() {
    assert_eq!(est_tokens("abcdefgh", 4000), 3);
    assert_eq!(calibrate(4000, 0, 10), 4000);
    assert_eq!(calibrate(4000, 1000, 0), 4000);
    assert_eq!(calibrate(4000, 3000, 1000), 3875);
    assert_eq!(calibrate(4000, 1_000_000, 1), 4250);
}

#[test]
fn folding_keeps_the_first_line() {
    let f = fold("ok first\nsecond\nthird");
    assert!(f.starts_with("ok first") && !f.contains("second"), "{f}");
}

#[test]
fn only_the_newest_read_of_a_file_stands_in_full() {
    let mut ledger = Ledger::new();
    ledger.push(Kind::Task, 0, "a task".into(), None);
    ledger.push(Kind::Result, 1, "#0 a.rs 1:1 of 1\n1:old".into(), Some(0));
    ledger.push(Kind::Result, 2, "#0 a.rs 1:1 of 1\n1:new".into(), Some(0));
    let mut cfg = CtxCfg::default();
    cfg.mode = "working_set".into();
    let doc = Renderer::new().render(&ledger, &cfg, 3, CPT_MILLI);
    assert!(doc.contains("(superseded by newer read of #0)"), "{doc}");
    assert!(doc.contains("1:new") && !doc.contains("1:old"), "{doc}");
}

#[test]
fn any_summary_is_replaced_and_stands_once() {
    let cases = [
        ("one line", "another line"),
        ("two\nlines", "two\n\nlines"),
        ("result 7\nresult", "result result"),
        ("> ", "[history compressed]"),
    ];
    for (first, second) in cases {
        let mut ledger = Ledger::new();
        ledger.push(Kind::Task, 0, "standing order".into(), None);
        for i in 1..=10u32 {
            ledger.push(Kind::Result, i, format!("result {i}"), None);
        }
        let mut cfg = CtxCfg::default();
        cfg.mode = "append".into();
        let mut r = Renderer::new();
        r.seal_summary(&ledger, 2, first.into());
        assert!(r.render(&ledger, &cfg, 11, CPT_MILLI).contains(first));
        for i in 11..=20u32 {
            ledger.push(Kind::Result, i, format!("result {i}"), None);
        }
        r.seal_summary(&ledger, 2, second.into());
        let doc = r.render(&ledger, &cfg, 21, CPT_MILLI);
        let briefing = format!("[history compressed]\n{second}");
        assert!(!doc.contains(first), "{doc}");
        assert_eq!(doc.matches(briefing.as_str()).count(), 1, "{doc}");
        assert_eq!(doc.find(briefing.as_str()), doc.find("## LOG\n").map(|k| k + 7));
    }
}

#[test]
fn a_second_briefing_replaces_the_first() {
    let mut ledger = Ledger::new();
    ledger.push(Kind::Pin, 0, "the lay of the land".into(), None);
    ledger.push(Kind::Task, 0, "standing order".into(), None);
    for i in 1..=10u32 {
        ledger.push(Kind::Result, i, format!("result {i}"), None);
    }
    let mut cfg = CtxCfg::default();
    cfg.mode = "append".into();
    let mut r = Renderer::new();
    r.seal_summary(&ledger, 2, "first briefing".into());
    for i in 11..=20u32 {
        ledger.push(Kind::Result, i, format!("result {i}"), None);
    }
    r.seal_summary(&ledger, 2, "second briefing".into());
    let doc = r.render(&ledger, &cfg, 21, CPT_MILLI);
    assert_eq!(
        doc,
        "the lay of the land\n## TASK\nstanding order\n\n## LOG\n[history compressed]\nsecond briefing\nresult 19\nresult 20\n"
    );
}
