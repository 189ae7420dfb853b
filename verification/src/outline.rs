//! Signature outlines: declaration lines with their real line numbers, bodies
//! elided. A few tokens to orient in a file instead of a full read; the line
//! numbers feed straight into range reads and edits.

use crate::text;
use crate::text::begins;
use crate::text::holds;
use crate::text::lines_of;
use crate::text::stripped;
use crate::text::texts;
use crate::text::trimmed;
use crate::text::trimmed_end;
use crate::text::trimmed_start;
use crate::tools::clip;
use crate::tools::clipped;
use vstd::prelude::*;

verus! {

/// `s` without the prefix `p`, where it has it.
pub open spec fn less(s: Seq<char>, p: Seq<char>) -> Seq<char> {
    match stripped(s, p) {
        Some(rest) => rest,
        None => s,
    }
}

fn without_prefix(s: String, p: &str) -> (r: String)
    ensures
        r@ == less(s@, p@),
{
    match text::strip_prefix(&s, p) {
        Some(rest) => rest,
        None => s,
    }
}

/// A declaration of Rust, whatever its indentation.
pub open spec fn rust_sig(line: Seq<char>) -> bool {
    let t = less(less(trimmed_start(line), "pub "@), "async "@);
    ||| begins(t, "fn "@)
    ||| begins(t, "struct "@)
    ||| begins(t, "enum "@)
    ||| begins(t, "trait "@)
    ||| begins(t, "impl "@)
    ||| begins(t, "mod "@)
    ||| begins(t, "const "@)
    ||| begins(t, "static "@)
    ||| begins(t, "type "@)
    ||| begins(t, "macro_rules!"@)
}

fn is_rust_sig(line: &str) -> (r: bool)
    ensures
        r == rust_sig(line@),
{
    let t = without_prefix(without_prefix(text::trim_start(line), "pub "), "async ");
    text::starts_with(&t, "fn ") || text::starts_with(&t, "struct ") || text::starts_with(
        &t,
        "enum ",
    ) || text::starts_with(&t, "trait ") || text::starts_with(&t, "impl ") || text::starts_with(
        &t,
        "mod ",
    ) || text::starts_with(&t, "const ") || text::starts_with(&t, "static ") || text::starts_with(
        &t,
        "type ",
    ) || text::starts_with(&t, "macro_rules!")
}

/// A definition of Python, or an import at the left margin.
pub open spec fn python_sig(line: Seq<char>) -> bool {
    let s = trimmed_start(line);
    ||| begins(s, "def "@)
    ||| begins(s, "async def "@)
    ||| begins(s, "class "@)
    ||| line == s && (begins(s, "import "@) || begins(s, "from "@))
}

fn is_python_sig(line: &str) -> (r: bool)
    ensures
        r == python_sig(line@),
{
    let s = text::trim_start(line);
    text::starts_with(&s, "def ") || text::starts_with(&s, "async def ") || text::starts_with(
        &s,
        "class ",
    ) || (text::same(line, &s) && (text::starts_with(&s, "import ") || text::starts_with(
        &s,
        "from ",
    )))
}

/// A declaration of JavaScript or TypeScript. A plain `const` counts only as a
/// function or an import.
pub open spec fn script_sig(line: Seq<char>) -> bool {
    let s = trimmed_start(line);
    let t = less(less(less(s, "export "@), "default "@), "async "@);
    &&& {
        ||| begins(t, "function "@)
        ||| begins(t, "class "@)
        ||| begins(t, "interface "@)
        ||| begins(t, "type "@)
        ||| begins(t, "enum "@)
        ||| begins(t, "const "@)
        ||| begins(t, "import "@)
    }
    &&& s != t || !begins(s, "const "@) || holds(s, "=>"@) || holds(s, "require("@)
}

fn is_script_sig(line: &str) -> (r: bool)
    ensures
        r == script_sig(line@),
{
    let s = text::trim_start(line);
    let t = without_prefix(
        without_prefix(without_prefix(s.clone(), "export "), "default "),
        "async ",
    );
    let declares = text::starts_with(&t, "function ") || text::starts_with(&t, "class ")
        || text::starts_with(&t, "interface ") || text::starts_with(&t, "type ")
        || text::starts_with(&t, "enum ") || text::starts_with(&t, "const ") || text::starts_with(
        &t,
        "import ",
    );
    declares && (!text::same(&s, &t) || !text::starts_with(&s, "const ") || text::contains(&s, "=>")
        || text::contains(&s, "require("))
}

/// A declaration of Go, at the left margin.
pub open spec fn go_sig(line: Seq<char>) -> bool {
    ||| begins(line, "func "@)
    ||| begins(line, "type "@)
    ||| begins(line, "const "@)
    ||| begins(line, "var "@)
    ||| begins(line, "package "@)
    ||| begins(line, "import"@)
}

fn is_go_sig(line: &str) -> (r: bool)
    ensures
        r == go_sig(line@),
{
    text::starts_with(line, "func ") || text::starts_with(line, "type ") || text::starts_with(
        line,
        "const ",
    ) || text::starts_with(line, "var ") || text::starts_with(line, "package ")
        || text::starts_with(line, "import")
}

/// A declaration of C# or Java, but no object that is being made.
pub open spec fn class_sig(line: Seq<char>) -> bool {
    let s = trimmed_start(line);
    &&& {
        ||| begins(s, "public "@)
        ||| begins(s, "private "@)
        ||| begins(s, "protected "@)
        ||| begins(s, "internal "@)
        ||| begins(s, "class "@)
        ||| begins(s, "interface "@)
        ||| begins(s, "enum "@)
        ||| begins(s, "namespace "@)
        ||| begins(s, "using "@)
        ||| begins(s, "record "@)
    }
    &&& !holds(s, " = new "@)
}

fn is_class_sig(line: &str) -> (r: bool)
    ensures
        r == class_sig(line@),
{
    let s = text::trim_start(line);
    let declares = text::starts_with(&s, "public ") || text::starts_with(&s, "private ")
        || text::starts_with(&s, "protected ") || text::starts_with(&s, "internal ")
        || text::starts_with(&s, "class ") || text::starts_with(&s, "interface ")
        || text::starts_with(&s, "enum ") || text::starts_with(&s, "namespace ")
        || text::starts_with(&s, "using ") || text::starts_with(&s, "record ");
    declares && !text::contains(&s, " = new ")
}

/// The languages whose declarations are known.
pub enum Lang {
    Rust,
    Python,
    Script,
    Go,
    Class,
}

/// The language of a file with the extension `ext`.
pub open spec fn lang_of(ext: Seq<char>) -> Option<Lang> {
    if ext == "rs"@ {
        Some(Lang::Rust)
    } else if ext == "py"@ {
        Some(Lang::Python)
    } else if ext == "js"@ || ext == "ts"@ || ext == "tsx"@ || ext == "jsx"@ || ext == "mjs"@ {
        Some(Lang::Script)
    } else if ext == "go"@ {
        Some(Lang::Go)
    } else if ext == "cs"@ || ext == "java"@ {
        Some(Lang::Class)
    } else {
        None
    }
}

fn language(ext: &str) -> (r: Option<Lang>)
    ensures
        r == lang_of(ext@),
{
    if text::same(ext, "rs") {
        Some(Lang::Rust)
    } else if text::same(ext, "py") {
        Some(Lang::Python)
    } else if text::same(ext, "js") || text::same(ext, "ts") || text::same(ext, "tsx")
        || text::same(ext, "jsx") || text::same(ext, "mjs") {
        Some(Lang::Script)
    } else if text::same(ext, "go") {
        Some(Lang::Go)
    } else if text::same(ext, "cs") || text::same(ext, "java") {
        Some(Lang::Class)
    } else {
        None
    }
}

/// Whether a line declares something in the given language. Blank lines
/// never do.
pub open spec fn declares(lang: Lang, line: Seq<char>) -> bool {
    trimmed(line).len() > 0 && (match lang {
        Lang::Rust => rust_sig(line),
        Lang::Python => python_sig(line),
        Lang::Script => script_sig(line),
        Lang::Go => go_sig(line),
        Lang::Class => class_sig(line),
    })
}

fn is_sig(lang: &Lang, line: &str) -> (r: bool)
    ensures
        r == declares(*lang, line@),
{
    if text::empty(&text::trim(line)) {
        return false;
    }
    match lang {
        Lang::Rust => is_rust_sig(line),
        Lang::Python => is_python_sig(line),
        Lang::Script => is_script_sig(line),
        Lang::Go => is_go_sig(line),
        Lang::Class => is_class_sig(line),
    }
}

/// The declarations among the first `n` lines, each with its line number.
pub open spec fn sigs(lang: Lang, lines: Seq<Seq<char>>, n: int) -> Seq<(int, Seq<char>)>
    decreases n,
{
    if n <= 0 {
        Seq::empty()
    } else if declares(lang, lines[n - 1]) {
        sigs(lang, lines, n - 1).push((n, clipped(trimmed_end(lines[n - 1]), 120)))
    } else {
        sigs(lang, lines, n - 1)
    }
}

/// What a list of numbered signatures says.
pub open spec fn sig_views(v: Seq<(usize, String)>) -> Seq<(int, Seq<char>)> {
    v.map_values(|p: (usize, String)| (p.0 as int, p.1@))
}

/// (line_number, signature) pairs for one file's text; `None` for a file whose
/// language is not known.
pub fn outline(text: &str, ext: &str) -> (r: Option<Vec<(usize, String)>>)
    ensures
        match r {
            Some(v) => lang_of(ext@) is Some && sig_views(v@) == sigs(
                lang_of(ext@)->0,
                lines_of(text@),
                lines_of(text@).len() as int,
            ),
            None => lang_of(ext@) is None,
        },
{
    let lang = match language(ext) {
        Some(l) => l,
        None => {
            return None;
        },
    };
    let lines = text::lines(text);
    let mut out: Vec<(usize, String)> = Vec::new();
    let mut i: usize = 0;
    assert(sig_views(out@) =~= Seq::<(int, Seq<char>)>::empty());
    while i < lines.len()
        invariant
            i <= lines@.len(),
            texts(lines@) == lines_of(text@),
            sig_views(out@) == sigs(lang, lines_of(text@), i as int),
        decreases lines@.len() - i,
    {
        assert(texts(lines@)[i as int] == lines@[i as int]@);
        if is_sig(&lang, &lines[i]) {
            let sig = clip(&text::trim_end(&lines[i]), 120);
            let ghost out0 = out@;
            out.push((i + 1, sig));
            assert(sig_views(out@) =~= sig_views(out0).push((i + 1, sig@)));
        }
        i += 1;
    }
    Some(out)
}

/// Whether files with this extension have outlines.
pub fn is_code_ext(ext: &str) -> (r: bool)
    ensures
        r == (lang_of(ext@) is Some),
{
    language(ext).is_some()
}

/// Every line number in an outline is that of a declaration in the text, the
/// numbers rise, and no declaration is left out.
pub proof fn outline_numbers_are_real(lang: Lang, lines: Seq<Seq<char>>, n: int)
    requires
        0 <= n <= lines.len(),
    ensures
        forall|k: int|
            0 <= k < sigs(lang, lines, n).len() ==> {
                let (at, sig) = #[trigger] sigs(lang, lines, n)[k];
                1 <= at <= n && declares(lang, lines[at - 1]) && sig == clipped(
                    trimmed_end(lines[at - 1]),
                    120,
                )
            },
        forall|j: int, k: int|
            0 <= j < k < sigs(lang, lines, n).len() ==> (#[trigger] sigs(lang, lines, n)[j]).0 < (
            #[trigger] sigs(lang, lines, n)[k]).0,
        forall|i: int|
            0 <= i < n && declares(lang, #[trigger] lines[i]) ==> exists|k: int|
                0 <= k < sigs(lang, lines, n).len() && (#[trigger] sigs(lang, lines, n)[k]).0 == i
                    + 1,
    decreases n,
{
    if n > 0 {
        outline_numbers_are_real(lang, lines, n - 1);
        let before = sigs(lang, lines, n - 1);
        let now = sigs(lang, lines, n);
        assert forall|i: int| 0 <= i < n && declares(lang, #[trigger] lines[i]) implies exists|
            k: int,
        |
            0 <= k < now.len() && (#[trigger] now[k]).0 == i + 1 by {
            if i == n - 1 {
                assert(now[now.len() - 1].0 == i + 1);
            } else {
                let k = choose|k: int| 0 <= k < before.len() && (#[trigger] before[k]).0 == i + 1;
                assert(now[k].0 == i + 1);
            }
        }
    }
}

proof fn lemma_begins(p: Seq<char>, rest: Seq<char>)
    ensures
        begins(p + rest, p),
        less(p + rest, p) == rest,
{
    assert((p + rest).subrange(0, p.len() as int) =~= p);
    assert((p + rest).skip(p.len() as int) =~= rest);
}

proof fn lemma_no_prefix(s: Seq<char>, p: Seq<char>)
    requires
        p.len() > 0,
        s.len() > 0 ==> s[0] != p[0],
    ensures
        !begins(s, p),
        less(s, p) == s,
{
    if begins(s, p) {
        assert(s.subrange(0, p.len() as int)[0] == s[0]);
    }
}

proof fn lemma_indented(pad: Seq<char>, s: Seq<char>)
    requires
        forall|k: int| 0 <= k < pad.len() ==> text::is_space(#[trigger] pad[k]),
        s.len() > 0,
        !text::is_space(s[0]),
    ensures
        trimmed_start(pad + s) == s,
        trimmed(pad + s).len() > 0,
    decreases pad.len(),
{
    text::lemma_indent(pad, s);
}

/// A Rust declaration counts at any indentation, with or without `pub` and
/// `async` in front, whatever follows the word that declares it.
pub proof fn rust_declarations_count(
    pad: Seq<char>,
    public: bool,
    asynchronous: bool,
    word: Seq<char>,
    rest: Seq<char>,
)
    requires
        forall|k: int| 0 <= k < pad.len() ==> text::is_space(#[trigger] pad[k]),
        seq![
            "fn "@,
            "struct "@,
            "enum "@,
            "trait "@,
            "impl "@,
            "mod "@,
            "const "@,
            "static "@,
            "type "@,
            "macro_rules!"@,
        ].contains(word),
    ensures
        ({
            let a = if asynchronous {
                "async "@ + (word + rest)
            } else {
                word + rest
            };
            let line = pad + (if public {
                "pub "@ + a
            } else {
                a
            });
            declares(Lang::Rust, line)
        }),
{
    reveal_strlit("fn ");
    reveal_strlit("struct ");
    reveal_strlit("enum ");
    reveal_strlit("trait ");
    reveal_strlit("impl ");
    reveal_strlit("mod ");
    reveal_strlit("const ");
    reveal_strlit("static ");
    reveal_strlit("type ");
    reveal_strlit("macro_rules!");
    reveal_strlit("pub ");
    reveal_strlit("async ");
    let d = word + rest;
    assert(word.len() > 0 && word[0] != 'p' && word[0] != 'a' && !text::is_space(word[0]));
    assert(d[0] == word[0]);
    lemma_begins(word, rest);
    let a = if asynchronous {
        "async "@ + d
    } else {
        d
    };
    let s = if public {
        "pub "@ + a
    } else {
        a
    };
    lemma_indented(pad, s);
    lemma_begins("pub "@, a);
    lemma_begins("async "@, d);
    lemma_no_prefix(d, "async "@);
    if !public {
        lemma_no_prefix(a, "pub "@);
    }
    assert(less(less(s, "pub "@), "async "@) == d);
}

/// A Python definition counts at any indentation, an import only at the left
/// margin.
pub proof fn python_definitions_count(pad: Seq<char>, word: Seq<char>, rest: Seq<char>)
    requires
        forall|k: int| 0 <= k < pad.len() ==> text::is_space(#[trigger] pad[k]),
    ensures
        seq!["def "@, "async def "@, "class "@].contains(word) ==> declares(
            Lang::Python,
            pad + (word + rest),
        ),
        seq!["import "@, "from "@].contains(word) ==> (declares(Lang::Python, pad + (word + rest))
            <==> pad.len() == 0),
{
    reveal_strlit("def ");
    reveal_strlit("async def ");
    reveal_strlit("class ");
    reveal_strlit("import ");
    reveal_strlit("from ");
    let d = word + rest;
    lemma_begins(word, rest);
    if seq!["def "@, "async def "@, "class "@].contains(word) {
        assert(d[0] == word[0]);
        lemma_indented(pad, d);
    }
    if seq!["import "@, "from "@].contains(word) {
        assert(d[0] == word[0]);
        lemma_indented(pad, d);
        lemma_no_prefix(d, "def "@);
        lemma_no_prefix(d, "async def "@);
        lemma_no_prefix(d, "class "@);
        if pad.len() == 0 {
            assert(pad + d =~= d);
        } else {
            assert((pad + d).len() > d.len());
        }
    }
}

/// A script declaration counts at any indentation, exported or not; a plain
/// constant that is no function and no import does not.
pub proof fn script_declarations_count(
    pad: Seq<char>,
    exported: bool,
    word: Seq<char>,
    rest: Seq<char>,
)
    requires
        forall|k: int| 0 <= k < pad.len() ==> text::is_space(#[trigger] pad[k]),
    ensures
        seq!["function "@, "class "@, "interface "@, "type "@, "import "@].contains(word)
            ==> declares(
            Lang::Script,
            pad + (if exported {
                "export "@ + (word + rest)
            } else {
                word + rest
            }),
        ),
        declares(Lang::Script, pad + ("export "@ + ("const "@ + rest))),
        declares(Lang::Script, pad + ("const "@ + rest)) <==> holds("const "@ + rest, "=>"@)
            || holds("const "@ + rest, "require("@),
{
    reveal_strlit("function ");
    reveal_strlit("class ");
    reveal_strlit("interface ");
    reveal_strlit("type ");
    reveal_strlit("import ");
    reveal_strlit("const ");
    reveal_strlit("export ");
    reveal_strlit("default ");
    reveal_strlit("async ");
    let d = word + rest;
    lemma_begins(word, rest);
    if seq!["function "@, "class "@, "interface "@, "type "@, "import "@].contains(word) {
        assert(d[0] == word[0]);
        lemma_no_prefix(d, "export "@);
        lemma_no_prefix(d, "default "@);
        lemma_no_prefix(d, "async "@);
        lemma_begins("export "@, d);
        if exported {
            lemma_indented(pad, "export "@ + d);
            assert("export "@ + d != d) by {
                assert(("export "@ + d).len() > d.len());
            }
        } else {
            lemma_indented(pad, d);
            if begins(d, "const "@) {
                assert(d.subrange(0, 6)[0] == d[0]);
                assert(d.subrange(0, 6)[1] == d[1]);
            }
        }
    }
    let c = "const "@ + rest;
    lemma_begins("const "@, rest);
    assert(c[0] == 'c');
    lemma_no_prefix(c, "export "@);
    lemma_no_prefix(c, "default "@);
    lemma_no_prefix(c, "async "@);
    lemma_indented(pad, c);
    lemma_begins("export "@, c);
    lemma_indented(pad, "export "@ + c);
    assert("export "@ + c != c) by {
        assert(("export "@ + c).len() > c.len());
    }
}

/// A Go declaration counts at the left margin only.
pub proof fn go_declarations_count(pad: Seq<char>, word: Seq<char>, rest: Seq<char>)
    requires
        forall|k: int| 0 <= k < pad.len() ==> text::is_space(#[trigger] pad[k]),
        seq!["func "@, "type "@, "const "@, "var "@, "package "@, "import"@].contains(word),
    ensures
        declares(Lang::Go, pad + (word + rest)) <==> pad.len() == 0,
{
    reveal_strlit("func ");
    reveal_strlit("type ");
    reveal_strlit("const ");
    reveal_strlit("var ");
    reveal_strlit("package ");
    reveal_strlit("import");
    let d = word + rest;
    lemma_begins(word, rest);
    assert(d[0] == word[0]);
    lemma_indented(pad, d);
    if pad.len() == 0 {
        assert(pad + d =~= d);
    } else {
        let line = pad + d;
        assert(line[0] == pad[0]);
        assert(text::is_space(pad[0]));
        lemma_no_prefix(line, "func "@);
        lemma_no_prefix(line, "type "@);
        lemma_no_prefix(line, "const "@);
        lemma_no_prefix(line, "var "@);
        lemma_no_prefix(line, "package "@);
        lemma_no_prefix(line, "import"@);
    }
}

/// A class member or declaration counts at any indentation, unless it makes an
/// object.
pub proof fn class_declarations_count(pad: Seq<char>, word: Seq<char>, rest: Seq<char>)
    requires
        forall|k: int| 0 <= k < pad.len() ==> text::is_space(#[trigger] pad[k]),
        seq![
            "public "@,
            "private "@,
            "protected "@,
            "internal "@,
            "class "@,
            "interface "@,
            "enum "@,
            "namespace "@,
            "using "@,
            "record "@,
        ].contains(word),
    ensures
        declares(Lang::Class, pad + (word + rest)) <==> !holds(word + rest, " = new "@),
{
    reveal_strlit("public ");
    reveal_strlit("private ");
    reveal_strlit("protected ");
    reveal_strlit("internal ");
    reveal_strlit("class ");
    reveal_strlit("interface ");
    reveal_strlit("enum ");
    reveal_strlit("namespace ");
    reveal_strlit("using ");
    reveal_strlit("record ");
    lemma_begins(word, rest);
    assert((word + rest)[0] == word[0]);
    lemma_indented(pad, word + rest);
}

/// A line that starts with no letter declares nothing, and neither does a blank
/// one.
pub proof fn other_lines_declare_nothing(lang: Lang, pad: Seq<char>, s: Seq<char>)
    requires
        forall|k: int| 0 <= k < pad.len() ==> text::is_space(#[trigger] pad[k]),
        s.len() > 0 ==> !text::is_space(s[0]) && !('a' <= s[0] <= 'z'),
    ensures
        !declares(lang, pad + s),
{
    reveal_strlit("pub ");
    reveal_strlit("async ");
    reveal_strlit("fn ");
    reveal_strlit("struct ");
    reveal_strlit("enum ");
    reveal_strlit("trait ");
    reveal_strlit("impl ");
    reveal_strlit("mod ");
    reveal_strlit("const ");
    reveal_strlit("static ");
    reveal_strlit("type ");
    reveal_strlit("macro_rules!");
    reveal_strlit("def ");
    reveal_strlit("async def ");
    reveal_strlit("class ");
    reveal_strlit("import ");
    reveal_strlit("from ");
    reveal_strlit("export ");
    reveal_strlit("default ");
    reveal_strlit("function ");
    reveal_strlit("interface ");
    reveal_strlit("func ");
    reveal_strlit("var ");
    reveal_strlit("package ");
    reveal_strlit("import");
    reveal_strlit("public ");
    reveal_strlit("private ");
    reveal_strlit("protected ");
    reveal_strlit("internal ");
    reveal_strlit("namespace ");
    reveal_strlit("using ");
    reveal_strlit("record ");
    if s.len() == 0 {
        assert(pad + s =~= pad);
        text::lemma_blank(pad);
    } else {
        lemma_indented(pad, s);
        lemma_plain(s);
        let line = pad + s;
        assert(line[0] == (if pad.len() > 0 { pad[0] } else { s[0] }));
        if pad.len() > 0 {
            assert(text::is_space(pad[0]));
        }
        lemma_plain(line);
    }
}

proof fn lemma_plain(s: Seq<char>)
    requires
        s.len() > 0,
        !('a' <= s[0] <= 'z'),
    ensures
        forall|p: Seq<char>|
            p.len() > 0 && 'a' <= p[0] <= 'z' ==> !(#[trigger] begins(s, p)),
        forall|p: Seq<char>| p.len() > 0 && 'a' <= p[0] <= 'z' ==> #[trigger] less(s, p) == s,
{
    assert forall|p: Seq<char>| p.len() > 0 && 'a' <= p[0] <= 'z' implies !(#[trigger] begins(s, p)) by {
        lemma_no_prefix(s, p);
    }
    assert forall|p: Seq<char>| p.len() > 0 && 'a' <= p[0] <= 'z' implies #[trigger] less(s, p) == s by {
        lemma_no_prefix(s, p);
    }
}

/// The extensions that outlines are known for.
pub proof fn known_languages(ext: Seq<char>)
    ensures
        lang_of(ext) == Some(Lang::Rust) <==> ext == "rs"@,
        lang_of(ext) == Some(Lang::Python) <==> ext == "py"@,
        lang_of(ext) == Some(Lang::Go) <==> ext == "go"@,
        lang_of(ext) == Some(Lang::Script) <==> seq!["js"@, "ts"@, "tsx"@, "jsx"@, "mjs"@].contains(
            ext,
        ),
        lang_of(ext) == Some(Lang::Class) <==> seq!["cs"@, "java"@].contains(ext),
{
    reveal_strlit("rs");
    reveal_strlit("py");
    reveal_strlit("go");
    reveal_strlit("js");
    reveal_strlit("ts");
    reveal_strlit("tsx");
    reveal_strlit("jsx");
    reveal_strlit("mjs");
    reveal_strlit("cs");
    reveal_strlit("java");
    let scripts = seq!["js"@, "ts"@, "tsx"@, "jsx"@, "mjs"@];
    assert(scripts[0] == "js"@ && scripts[1] == "ts"@ && scripts[2] == "tsx"@ && scripts[3]
        == "jsx"@ && scripts[4] == "mjs"@);
    let classes = seq!["cs"@, "java"@];
    assert(classes[0] == "cs"@ && classes[1] == "java"@);
    assert("rs"@[0] == 'r' && "py"@[0] == 'p' && "go"@[0] == 'g' && "js"@[0] == 'j' && "ts"@[0]
        == 't' && "ts"@[1] == 's' && "cs"@[0] == 'c' && "tsx"@.len() == 3 && "jsx"@.len() == 3
        && "mjs"@.len() == 3 && "java"@.len() == 4);
    assert("tsx"@[0] == 't' && "jsx"@[0] == 'j' && "mjs"@[0] == 'm');
}

} // verus!
