//! What is asked of a model and of a shell daemon, and which endpoint serves a
//! model.

use haste::agent::distill_prompt;
use haste::agent::distilled;
use haste::client::endpoints;
use haste::client::resolve_model;
use haste::config::Config;
use haste::config::CtxCfg;
use haste::config::DistillCfg;
use haste::config::ExecCfg;
use haste::config::ModelCfg;
use haste::config::PlanCfg;
use haste::config::PromptCfg;
use haste::config::ThinkCfg;
use haste::config::VerifyCfg;
use haste::request::completion_body;
use haste::request::request_body;
use haste::shelld;
use haste::shelld::Next;
use haste::shelld::Outcome;
use haste::shelld::Reply;
use haste::table::Table;

fn model(url: &str, name: &str) -> ModelCfg {
    ModelCfg {
        base_url: url.to_string(),
        model: name.to_string(),
        api_key_env: None,
        max_tokens: 99,
        temperature: None,
        prefix_cache: true,
        extra_body: None,
        effort: Table::new(),
        think: None,
    }
}

fn cfg(m: ModelCfg) -> Config {
    Config {
        model: m,
        models: Table::new(),
        context: CtxCfg::default(),
        tool: Table::new(),
        profile: Table::new(),
        distill: DistillCfg::default(),
        execution: ExecCfg::for_os(false),
        plan: PlanCfg::default(),
        verify: VerifyCfg::default(),
        prompt: PromptCfg::default(),
        mods_dir: String::new(),
        prompt_extra: String::new(),
        mod_notes: Vec::new(),
    }
}

fn fields(rows: &[(&str, &str)]) -> Table<String> {
    let mut t = Table::new();
    for (k, v) in rows {
        t.insert(k.to_string(), v.to_string());
    }
    t
}

#[test]
fn a_request_is_an_object_with_its_texts_quoted() {
    assert_eq!(
        request_body(&model("http://x", "m\"1"), "be \"brief\"", "hi\n", &Vec::new(), true),
        "{\"max_tokens\":99,\"messages\":[{\"content\":\"be \\\"brief\\\"\",\"role\":\"system\"},{\"content\":\"hi\\n\",\"role\":\"user\"}],\"model\":\"m\\\"1\",\"stream\":true,\"stream_options\":{\"include_usage\":true}}"
    );
}

#[test]
fn images_follow_the_text() {
    let images = vec![("image/png".to_string(), "QUI=".to_string())];
    let body = request_body(&model("http://x", "m"), "s", "look", &images, false);
    let v: serde_json::Value = serde_json::from_str(&body).unwrap();
    let content = &v["messages"][1]["content"];
    assert_eq!(content[0]["type"].as_str(), Some("text"));
    assert_eq!(content[0]["text"].as_str(), Some("look"));
    assert_eq!(content[1]["type"].as_str(), Some("image_url"));
    assert_eq!(content[1]["image_url"]["url"].as_str(), Some("data:image/png;base64,QUI="));
    assert_eq!(content.as_array().map(|a| a.len()), Some(2));
}

#[test]
fn a_temperature_is_sent_only_where_there_is_one() {
    let mut m = model("http://x", "m");
    assert!(!request_body(&m, "s", "u", &Vec::new(), false).contains("temperature"));
    assert!(!completion_body(&m, "p", 5).contains("temperature"));
    m.temperature = Some("0.7".to_string());
    assert!(request_body(&m, "s", "u", &Vec::new(), false).contains("\"temperature\":0.7}"));
    assert_eq!(
        completion_body(&m, "p", 5),
        "{\"max_tokens\":5,\"messages\":[{\"content\":\"p\",\"role\":\"user\"}],\"model\":\"m\",\"temperature\":0.0}"
    );
}

#[test]
fn deliberation_wins_over_extra_fields_and_those_over_the_request() {
    let mut m = model("http://x", "m");
    m.extra_body = Some(fields(&[("effort", "\"low\""), ("max_tokens", "7")]));
    m.think = Some(ThinkCfg {
        on: Vec::new(),
        turns: 1,
        after: 2,
        kwargs: fields(&[("effort", "\"high\"")]),
    });
    let fast: serde_json::Value = serde_json::from_str(&request_body(&m, "s", "u", &Vec::new(), false)).unwrap();
    let slow: serde_json::Value = serde_json::from_str(&request_body(&m, "s", "u", &Vec::new(), true)).unwrap();
    assert_eq!(fast["max_tokens"].as_u64(), Some(7));
    assert_eq!(fast["effort"].as_str(), Some("low"));
    assert_eq!(slow["max_tokens"].as_u64(), Some(7));
    assert_eq!(slow["effort"].as_str(), Some("high"));
    assert_eq!(slow["model"].as_str(), Some("m"));
}

#[test]
fn a_served_model_inherits_its_endpoint() {
    let mut c = cfg(model("http://a", "one"));
    c.models.insert("second".to_string(), model("http://b", "two"));
    c.models.insert("third".to_string(), model("http://a", "three"));
    let asked: Vec<String> = endpoints(&c).into_iter().map(|m| m.base_url).collect();
    assert_eq!(asked, vec!["http://a".to_string(), "http://b".to_string()]);
    let answers = vec![vec!["x".to_string()], vec!["y".to_string(), "z".to_string()]];
    let named = resolve_model(&c, "third", &answers).unwrap();
    assert_eq!((named.base_url.as_str(), named.model.as_str()), ("http://a", "three"));
    let served = resolve_model(&c, "z", &answers).unwrap();
    assert_eq!((served.base_url.as_str(), served.model.as_str()), ("http://b", "z"));
    assert!(resolve_model(&c, "nobody", &answers).is_none());
}

#[test]
fn only_long_texts_are_distilled() {
    let c = cfg(model("http://a", "one"));
    assert_eq!(distill_prompt(&c, "t", "short"), None);
    let long = "x".repeat(600);
    let prompt = distill_prompt(&c, "the task", &long).unwrap();
    assert!(prompt.contains("TASK: the task\n---\nxxx"), "{prompt}");
    assert_eq!(distilled(&long, Some(" fact \n".to_string())), "(distilled from 600 chars)\nfact");
    assert_eq!(distilled("a\nb", None), "a\nb");
}

#[test]
fn daemon_replies_are_read() {
    assert!(matches!(shelld::read_reply("<<HASTE:DONE 3>>\r\n"), Reply::Done(3)));
    assert!(matches!(shelld::read_reply("<<HASTE:DONE x>>"), Reply::Done(-1)));
    assert!(matches!(shelld::read_reply("hello  \r\n"), Reply::Output(t) if t == "hello"));
}

#[test]
fn a_daemon_is_retried_once_and_a_timeout_never() {
    assert_eq!(shelld::first_retries(true), 1);
    assert_eq!(shelld::first_retries(false), 0);
    assert!(matches!(shelld::run(1, 0, Outcome::Died, 10), Next::Respawn { retries: 0 }));
    assert!(matches!(shelld::run(0, 0, Outcome::Died, 10), Next::GiveUp));
    assert!(matches!(
        shelld::run(1, 0, Outcome::TimedOut("part".to_string()), 10),
        Next::Return { output, code: -1, keep: false } if output == "part\n(killed after 10ms)"
    ));
    assert!(matches!(
        shelld::run(0, shelld::POOL_MAX, Outcome::Finished("out\n".to_string(), 2), 10),
        Next::Return { output, code: 2, keep: false } if output == "out\n"
    ));
}
