//! Files, outlines, pruners, and the shell's output.

use haste::ledger::fnv;
use haste::outline::is_code_ext;
use haste::outline::outline;
use haste::shelld::b64;
use haste::tools::clip;
use haste::tools::prune;
use haste::tools::shell_command;
use haste::tools::shell_report;
use haste::tools::squeeze_spaces;
use haste::tools::Edited;
use haste::tools::Found;
use haste::tools::Grep;
use haste::tools::ImageFound;
use haste::tools::Workspace;
use haste::tools::GREP_MAX_FILES;
use haste::walk::CodeWalk;
use haste::walk::Seek;
use std::collections::BTreeMap;

struct Disk {
    ws: Workspace,
    files: BTreeMap<String, String>,
}

impl Disk {
    fn new(files: &[(&str, &str)]) -> Disk {
        Disk {
            ws: Workspace::new("/work".to_string()),
            files: files.iter().map(|(n, t)| (n.to_string(), t.to_string())).collect(),
        }
    }

    fn found(&mut self, target: &str) -> Found {
        let (is_file, namesakes) = match Workspace::path_named(target) {
            Some(p) => (
                self.files.contains_key(&p),
                self.files.keys().filter(|k| k.rsplit('/').next() == Some(p.as_str())).cloned().collect(),
            ),
            None => (false, Vec::new()),
        };
        let text = match self.ws.resolve(target, is_file, &namesakes) {
            Ok((_, path)) => self.files.get(&path).cloned().ok_or_else(|| "gone".to_string()),
            Err(e) => Err(e),
        };
        Found { is_file, namesakes, text }
    }

    fn read(&mut self, target: &str, range: Option<(usize, usize)>) -> Result<String, String> {
        let f = self.found(target);
        self.ws.read(target, range, &f)
    }

    fn keep(&mut self, e: Edited) -> String {
        self.files.insert(e.path, e.text);
        e.report
    }

    fn edit(&mut self, target: &str, a: usize, b: usize, body: &str) -> Result<String, String> {
        let f = self.found(target);
        let e = self.ws.edit(target, a, b, body, &f)?;
        Ok(self.keep(e))
    }

    fn insert(&mut self, target: &str, after: usize, body: &str) -> Result<String, String> {
        let f = self.found(target);
        let e = self.ws.insert(target, after, body, &f)?;
        Ok(self.keep(e))
    }

    fn grep(&mut self, pat: &str) -> Result<String, String> {
        let mut g = self.ws.grep(pat, &None, false, &Vec::new(), true)?;
        while let Some(path) = g.next(0, "0.0") {
            match self.files.get(&path) {
                Some(t) => g.file(&mut self.ws, &path, Some(t.clone())),
                None => g.directory(&path, self.files.keys().cloned().collect()),
            }
        }
        Ok(g.report())
    }
}

fn ws() -> Disk {
    Disk::new(&[("a.txt", "one\ntwo\nthree\nfour\nfive\n")])
}

#[test]
fn read_edit_renumber() {
    let mut w = ws();
    let r = w.read("a.txt", Some((2, 4))).unwrap();
    assert!(r.starts_with("#0 a.txt 2:4 of 5"));
    assert!(r.contains("2:two"));
    let rep = w.edit("0", 2, 3, "TWO\nTWO-B\nTWO-C").unwrap();
    assert!(rep.starts_with("ok #0 now 6 lines"), "{rep}");
    let r2 = w.read("0", None).unwrap();
    assert!(r2.contains("2:TWO") && r2.contains("4:TWO-C") && r2.contains("5:four"));
}

#[test]
fn insert_and_delete() {
    let mut w = ws();
    w.read("a.txt", None).unwrap();
    w.insert("0", 0, "ZERO").unwrap();
    let r = w.read("0", Some((1, 2))).unwrap();
    assert!(r.contains("1:ZERO") && r.contains("2:one"));
    w.edit("0", 1, 1, "").unwrap();
    let r = w.read("0", Some((1, 1))).unwrap();
    assert!(r.contains("1:one"));
}

#[test]
fn resolve_accepts_hash_ids() {
    let mut w = ws();
    w.read("a.txt", None).unwrap();
    assert!(w.read("#0", Some((1, 1))).unwrap().contains("1:one"));
    assert!(w.edit("#0", 1, 1, "ONE").is_ok());
}

#[test]
fn grep_interns() {
    let mut w = ws();
    let hits = w.grep("thr").unwrap();
    assert!(hits.contains("#0:3:three"), "{hits}");
    assert!(w.ws.legend().contains("#0=a.txt"));
}

#[test]
fn clip_is_boundary_safe_and_grep_windows_megalines() {
    let s = "ααααααααα";
    let c = clip(s, 5);
    assert!(c.starts_with("αα") && c.contains("…(+"), "{c}");

    let big = format!("{}\"caption\":true{}", "x".repeat(50_000), "y".repeat(50_000));
    let mut w = Disk::new(&[("mini.json", &big)]);
    let hits = w.grep("caption").unwrap();
    assert!(hits.len() < 500, "grep hit not windowed: {} chars", hits.len());
    assert!(hits.contains("\"caption\":true"), "{hits}");
    assert!(hits.contains('…'), "{hits}");

    let r = w.read("mini.json", None).unwrap();
    assert!(r.len() < 1200, "read not clamped: {} chars", r.len());
}

#[test]
fn pruners() {
    let noisy: String = (1..=100).map(|i| format!("line {i}\n")).collect();
    let ht = prune("head_tail:3,2", &noisy);
    assert!(ht.contains("(95 lines elided)"));
    let failing = "running 30 tests\nok ok ok\nerror[E0308]: mismatched types\n --> src/x.rs:9\nnote: blah\n";
    let ff = prune("first_failure", failing);
    assert!(ff.starts_with("error[E0308]"));
    let chain = prune("drop:^note|first_failure", failing);
    assert!(!chain.contains("note:"));
}

#[test]
fn shell_output_squeezes_alignment_padding() {
    let r = shell_report("Name                     LastWriteTime\n", "", 0);
    assert!(r.contains("Name  LastWriteTime"), "{r}");
    assert!(!r.contains("    "), "padding survived: {r}");
}

#[test]
fn shell_timeout_and_exit() {
    let r = shell_report("", "", 3);
    assert!(r.starts_with("exit 3"), "{r}");
    let ok = shell_report("hi\n", "", 0);
    assert!(ok.contains("hi"));
}

#[test]
fn powershell_no_quote_mangling() {
    let line = "@(1,2,3) | ForEach-Object { \"n=$_\" } | Select-Object -First 2";
    let argv = shell_command("powershell", line);
    assert_eq!(argv.last().map(|s| s.as_str()), Some(line));
    assert_eq!(argv[0], "powershell");
}

#[test]
fn b64_matches_reference() {
    assert_eq!(b64(b""), "");
    assert_eq!(b64(b"f"), "Zg==");
    assert_eq!(b64(b"fo"), "Zm8=");
    assert_eq!(b64(b"foobar"), "Zm9vYmFy");
}

#[test]
fn rust_and_python_outlines() {
    let rs = "use std::io;\n\npub struct Foo {\n    x: u32,\n}\n\nimpl Foo {\n    pub fn new() -> Foo {\n        Foo { x: 1 }\n    }\n}\n";
    let o = outline(rs, "rs").unwrap();
    let sigs: Vec<&str> = o.iter().map(|(_, s)| s.as_str()).collect();
    assert!(sigs.contains(&"pub struct Foo {"));
    assert!(sigs.iter().any(|s| s.contains("pub fn new")));
    assert!(!sigs.iter().any(|s| s.contains("Foo { x: 1 }")), "body leaked: {sigs:?}");
    assert_eq!(o.iter().find(|(_, s)| s.contains("fn new")).unwrap().0, 8);

    let py = "import os\n\nclass Cart:\n    def add(self, x):\n        self.x = x\n\ndef main():\n    pass\n";
    let o = outline(py, "py").unwrap();
    let sigs: Vec<&str> = o.iter().map(|(_, s)| s.as_str()).collect();
    assert!(sigs.contains(&"class Cart:") && sigs.iter().any(|s| s.contains("def add")));
    assert!(!sigs.iter().any(|s| s.contains("self.x = x")));
}

#[test]
fn only_code_has_an_outline() {
    assert!(is_code_ext("rs") && is_code_ext("java") && !is_code_ext("md"));
    assert!(outline("x", "md").is_none());
}

#[test]
fn bad_targets_are_named() {
    let mut w = ws();
    assert_eq!(w.read("7", None), Err("no file #7".to_string()));
    assert_eq!(w.read("nope.txt", None), Err("not a file: nope.txt".to_string()));
    assert!(w.read("a.txt", None).is_ok());
    let e = w.edit("0", 9, 9, "x").unwrap_err();
    assert!(e.contains('9'), "{e}");
    assert!(w.grep("(").unwrap_err().starts_with("bad regex: "));
}

#[test]
fn patterns_decide_what_is_kept() {
    assert_eq!(prune("keep:^a", "ab\nba\nac\n"), "ab\nac");
    assert_eq!(prune("drop:^a", "ab\nba\nac\n"), "ba");
    assert_eq!(prune("", "as it is"), "as it is");
}

#[test]
fn squeezing_keeps_indentation_and_words() {
    assert_eq!(squeeze_spaces("  a      b"), "  a  b");
}

#[test]
fn a_search_stops_at_its_deadline() {
    let mut w = ws();
    let mut g = w.ws.grep("zzz", &None, false, &Vec::new(), true).unwrap();
    assert!(g.next(60_000, "60.0").is_none());
    assert!(g.report().contains("grep stopped early"), "{}", g.report());
    assert!(Grep::too_big(None) && !Grep::too_big(Some(10)));
}

#[test]
fn images_are_encoded() {
    let mut w = Workspace::new("/work".to_string());
    let found = ImageFound {
        is_file: true,
        namesakes: Vec::new(),
        size: Ok(6),
        bytes: Ok(b"foobar".to_vec()),
    };
    let i = w.load_image("pic.png", &found).unwrap();
    assert_eq!((i.mime.as_str(), i.b64.as_str(), i.bytes), ("image/png", "Zm9vYmFy", 6));
    assert!(w.load_image("pic.txt", &found).is_err());
}

#[test]
fn ids_are_stable() {
    let mut w = Workspace::new("/work".to_string());
    assert_eq!(w.intern("a"), 0);
    assert_eq!(w.intern("b"), 1);
    assert_eq!(w.intern("a"), 0);
    assert_eq!(w.legend_from(1), "files: #1=b \n");
}

#[test]
fn hashes_are_fnv_1a() {
    assert_eq!(fnv(""), 0xcbf29ce484222325);
    assert_eq!(fnv("a"), 0xaf63dc4c8601ec8c);
}

#[test]
fn a_directory_is_outlined_by_its_code() {
    let mut w = Workspace::new("/r".to_string());
    let held = vec![
        ("src/a.rs".to_string(), "// top\npub fn a() {}\n".to_string()),
        ("src/notes.txt".to_string(), "fn not_code()\n".to_string()),
        ("src/b.py".to_string(), "def b():\n    pass\n".to_string()),
    ];
    let map = w.outline_dir("src", &held).unwrap();
    assert_eq!(map, "outline #0 src/a.rs\n2: pub fn a() {}\noutline #1 src/b.py\n1: def b():");
    assert_eq!(w.file_count(), 2);
    assert_eq!(w.outline_dir("docs", &Vec::new()), Err("no code to outline in docs".to_string()));
}

/// What a directory of this tree holds; nothing for a file.
fn tree(path: &str) -> Option<Vec<String>> {
    let held: &[&str] = match path {
        "" => &["src", "target", ".hidden", "lib.rs", "notes.txt"],
        "src" => &["src/a.rs", "src/deep", "src/big.rs"],
        "src/deep" => &["src/deep/lib.rs", "src/deep/b.py", "src/deep/once.rs"],
        "target" => &["target/once.rs", "target/c.rs"],
        ".hidden" => &[".hidden/once.rs"],
        _ => return None,
    };
    Some(held.iter().map(|s| s.to_string()).collect())
}

fn namesakes(name: &str) -> Vec<String> {
    let mut seek = Seek::new(name);
    while let Some(path) = seek.next() {
        match tree(&path) {
            Some(held) => seek.directory(&path, &held),
            None => seek.file(&path),
        }
    }
    seek.namesakes()
}

fn code_under(base: &str) -> Vec<String> {
    let mut walk = CodeWalk::new(base);
    while let Some(path) = walk.next() {
        match tree(&path) {
            Some(held) => walk.directory(&path, &held),
            None => {
                let size = if path == "src/big.rs" { 3_000_000 } else { 10 };
                if CodeWalk::wants(&path, Some(size)) {
                    walk.file(&path, Some(format!("text of {path}")));
                }
            }
        }
    }
    let files = walk.files();
    assert!(files.iter().all(|(p, t)| *t == format!("text of {p}")));
    files.into_iter().map(|(p, _)| p).collect()
}

#[test]
fn namesakes_are_sought_through_the_tree() {
    assert_eq!(namesakes("once.rs"), vec!["src/deep/once.rs"]);
    assert_eq!(namesakes("lib.rs").len(), 2);
    assert!(namesakes("gone.rs").is_empty());
    assert!(namesakes("deep").is_empty());
}

#[test]
fn a_search_stops_at_the_second_namesake() {
    let mut seek = Seek::new("x");
    assert_eq!(seek.next().as_deref(), Some(""));
    seek.directory("", &vec!["a/x".to_string(), "b/x".to_string(), "c/x".to_string()]);
    for path in ["c/x", "b/x"] {
        assert_eq!(seek.next().as_deref(), Some(path));
        seek.file(path);
    }
    assert_eq!(seek.next(), None);
    assert_eq!(seek.namesakes(), vec!["c/x", "b/x"]);
}

#[test]
fn nothing_is_guessed_in_a_tree_that_is_too_large() {
    let many: Vec<String> = (0..=GREP_MAX_FILES).map(|i| format!("f{i}")).collect();
    let last = format!("f{GREP_MAX_FILES}");
    for (held, expected) in [(&many[..GREP_MAX_FILES], 0), (&many[1..], 1), (&many[..], 0)] {
        let mut seek = Seek::new(&last);
        let mut visits = 0;
        while let Some(path) = seek.next() {
            visits += 1;
            if path.is_empty() {
                seek.directory("", &held.to_vec());
            } else {
                seek.file(&path);
            }
        }
        assert_eq!(visits, GREP_MAX_FILES + 1);
        assert_eq!(seek.namesakes().len(), expected);
    }
}

#[test]
fn a_code_map_reads_the_code_files_in_order() {
    assert_eq!(code_under(""), vec!["lib.rs", "src/a.rs", "src/deep/b.py", "src/deep/lib.rs", "src/deep/once.rs"]);
    assert_eq!(code_under("src/deep"), vec!["src/deep/b.py", "src/deep/lib.rs", "src/deep/once.rs"]);
    // A walk goes into the directory that it starts in, whatever its name.
    assert_eq!(code_under("target"), vec!["target/c.rs", "target/once.rs"]);
    assert!(!CodeWalk::wants("a.rs", None));
    assert!(!CodeWalk::wants("a.txt", Some(1)));
}

fn found(text: &str) -> Found {
    Found { is_file: true, namesakes: Vec::new(), text: Ok(text.to_string()) }
}

#[test]
fn an_edit_is_reported_with_two_lines_on_either_side() {
    let mut w = Workspace::new("/r".to_string());
    w.intern("x");
    w.intern("y");
    let text = "a\nb\nc\nd\ne\nF\ng\nh\ni\nj\n";
    let e = w.edit("z.txt", 6, 6, "f", &found(text)).unwrap();
    assert_eq!(e.report, "ok #2 now 10 lines\n4:d\n5:e\n6:f\n7:g\n8:h");
    let e = w.edit("z.txt", 2, 2, "B", &found(text)).unwrap();
    assert_eq!(e.report, "ok #2 now 10 lines\n1:a\n2:B\n3:c\n4:d");
    let e = w.insert("z.txt", 10, "k", &found(text)).unwrap();
    assert_eq!(e.report, "ok #2 now 11 lines\n9:i\n10:j\n11:k");
}

#[test]
fn two_spellings_of_a_path_have_one_id() {
    let mut w = Workspace::new("/r".to_string());
    assert_eq!(w.intern("src/a.rs"), 0);
    for same in ["src//a.rs", "src/./a.rs", "src/a.rs/", "src///./a.rs"] {
        assert_eq!(w.intern(same), 0, "{same}");
    }
    assert_eq!(w.intern("./src/a.rs"), 1);
    assert_eq!(w.intern("/src/a.rs"), 2);
    assert_eq!(w.intern("src/../src/a.rs"), 3);
    assert_eq!(w.intern("/.//src/a.rs"), 2);
    let r = w.read("src//a.rs", None, &found("x\n")).unwrap();
    assert_eq!(r, "#0 src/a.rs 1:1 of 1\n1:x");
}

#[test]
fn hits_name_files_as_seen_from_the_root() {
    let mut w = Workspace::new("/r".to_string());
    w.intern("src/a.rs");
    for path in ["src/a.rs", "./src//a.rs", "/r/src/a.rs"] {
        let mut g = w.grep("x", &None, false, &Vec::new(), true).unwrap();
        g.file(&mut w, path, Some("x\n".to_string()));
        assert!(g.report().contains("#0:1:x"), "{path}");
    }
    let mut g = w.grep("x", &None, false, &Vec::new(), true).unwrap();
    g.file(&mut w, "/other/src/a.rs", Some("x\n".to_string()));
    assert!(g.report().contains("#1:1:x"));
    assert!(w.legend().contains("#1=/other/src/a.rs"), "{}", w.legend());
}

#[test]
fn deleting_what_was_inserted_restores_the_text() {
    let mut w = Workspace::new("/r".to_string());
    let text = "one\n\nthree\n";
    for (k, body) in [(0, "x"), (1, "x\ny\n"), (3, "\n"), (2, "cr\r\r\nend\r")] {
        let n = body.lines().count();
        let now = w.insert("t", k, body, &found(text)).unwrap().text;
        assert_ne!(now, text);
        let back = w.edit("t", k + 1, k + n, "", &found(&now)).unwrap().text;
        assert_eq!(back, text);
    }
}

#[test]
fn squeezing_keeps_lines_and_words() {
    let s = "Name                     LastWriteTime\n\n\ta \t  b\t\n  c";
    let r = squeeze_spaces(s);
    assert_eq!(r, "Name  LastWriteTime\n\n a  b\n  c");
    assert_eq!(squeeze_spaces(&r), r);
    assert_eq!(r.lines().count(), s.lines().count());
}
