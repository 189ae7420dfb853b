//! The command line.

use crate::text;
use crate::text::joined;
use crate::text::opt_text;
use crate::text::texts;
use crate::text::trimmed;
use vstd::prelude::*;

verus! {

pub const USAGE: &'static str =
    "haste — micro agent harness for wafer-speed inference\n\nusage: haste [-c config.toml] [-p profile] [-C root] [--tui] [task...]\n       haste init | update\n\nWith no task, opens the TUI in the current directory.\nConfig lookup: -c, ./haste.toml, ~/.haste.toml, built-in default.";

/// What a command line asks for.
pub enum Command {
    Version,
    Help,
    Init,
    Update,
    Run { options: Options },
}

/// How to run.
pub struct Options {
    pub config: Option<String>,
    pub profile: Option<String>,
    pub root: Option<String>,
    pub model: Option<String>,
    pub effort: Option<String>,
    pub tui: bool,
    /// One JSON line per agent event on stdout.
    pub events: bool,
    pub task: String,
}

#[verifier::ext_equal]
pub struct OptionsV {
    pub config: Option<Seq<char>>,
    pub profile: Option<Seq<char>>,
    pub root: Option<Seq<char>>,
    pub model: Option<Seq<char>>,
    pub effort: Option<Seq<char>>,
    pub tui: bool,
    pub events: bool,
    pub words: Seq<Seq<char>>,
}

/// Options before any argument.
pub open spec fn no_options() -> OptionsV {
    OptionsV {
        config: None,
        profile: None,
        root: None,
        model: None,
        effort: None,
        tui: false,
        events: false,
        words: Seq::empty(),
    }
}

/// The argument after `i`.
pub open spec fn value_at(args: Seq<Seq<char>>, i: int) -> Option<Seq<char>> {
    if i + 1 < args.len() {
        Some(args[i + 1])
    } else {
        None
    }
}

/// The options after the arguments from `i` on. What is no option is part of
/// the task.
pub open spec fn options_from(args: Seq<Seq<char>>, i: int, o: OptionsV) -> OptionsV
    decreases args.len() - i + 1,
{
    if i < 0 || i >= args.len() {
        o
    } else {
        let a = args[i];
        let v = value_at(args, i);
        if a == "--config"@ || a == "-c"@ {
            options_from(args, i + 2, OptionsV { config: v, ..o })
        } else if a == "--profile"@ || a == "-p"@ {
            options_from(args, i + 2, OptionsV { profile: v, ..o })
        } else if a == "--root"@ || a == "-C"@ {
            options_from(
                args,
                i + 2,
                OptionsV {
                    root: if v is Some {
                        v
                    } else {
                        o.root
                    },
                    ..o
                },
            )
        } else if a == "--tui"@ {
            options_from(args, i + 1, OptionsV { tui: true, ..o })
        } else if a == "--events"@ {
            options_from(args, i + 1, OptionsV { events: true, ..o })
        } else if a == "--model"@ || a == "-m"@ {
            options_from(args, i + 2, OptionsV { model: v, ..o })
        } else if a == "--reason"@ || a == "-r"@ || a == "--effort"@ {
            options_from(args, i + 2, OptionsV { effort: v, ..o })
        } else {
            options_from(args, i + 1, OptionsV { words: o.words.push(a), ..o })
        }
    }
}

/// Whether a command line means these options.
pub open spec fn means(args: Seq<Seq<char>>, r: Options) -> bool {
    let o = options_from(args, 0, no_options());
    &&& opt_text(r.config) == o.config
    &&& opt_text(r.profile) == o.profile
    &&& opt_text(r.root) == o.root
    &&& opt_text(r.model) == o.model
    &&& opt_text(r.effort) == o.effort
    &&& r.tui == o.tui
    &&& r.events == o.events
    &&& r.task@ == joined(o.words, " "@)
}

fn value(args: &Vec<String>, i: usize) -> (r: Option<String>)
    requires
        i < args@.len(),
    ensures
        opt_text(r) == value_at(texts(args@), i as int),
{
    if args.len() - i > 1 {
        Some(args[i + 1].clone())
    } else {
        None
    }
}

fn after_value(args: &Vec<String>, i: usize) -> (r: usize)
    requires
        i < args@.len(),
    ensures
        i < r <= args@.len(),
        r == i + 2 || (i + 2 > args@.len() && r == args@.len()),
{
    if args.len() - i > 2 {
        i + 2
    } else {
        args.len()
    }
}

/// The options of a command line.
pub fn options(args: &Vec<String>) -> (r: Options)
    ensures
        means(texts(args@), r),
{
    let ghost all = texts(args@);
    let mut config: Option<String> = None;
    let mut profile: Option<String> = None;
    let mut root: Option<String> = None;
    let mut model: Option<String> = None;
    let mut effort: Option<String> = None;
    let mut tui = false;
    let mut events = false;
    let mut words: Vec<String> = Vec::new();
    let mut i: usize = 0;
    assert(texts(words@) =~= Seq::<Seq<char>>::empty());
    while i < args.len()
        invariant
            i <= args@.len(),
            all == texts(args@),
            options_from(all, 0, no_options()) == options_from(
                all,
                i as int,
                OptionsV {
                    config: opt_text(config),
                    profile: opt_text(profile),
                    root: opt_text(root),
                    model: opt_text(model),
                    effort: opt_text(effort),
                    tui,
                    events,
                    words: texts(words@),
                },
            ),
        decreases args@.len() - i,
    {
        let a = &args[i];
        assert(all[i as int] == a@);
        proof {
            reveal_with_fuel(options_from, 2);
        }
        if text::same(a, "--config") || text::same(a, "-c") {
            config = value(args, i);
            i = after_value(args, i);
        } else if text::same(a, "--profile") || text::same(a, "-p") {
            profile = value(args, i);
            i = after_value(args, i);
        } else if text::same(a, "--root") || text::same(a, "-C") {
            let v = value(args, i);
            if v.is_some() {
                root = v;
            }
            i = after_value(args, i);
        } else if text::same(a, "--tui") {
            tui = true;
            i = i + 1;
        } else if text::same(a, "--events") {
            events = true;
            i = i + 1;
        } else if text::same(a, "--model") || text::same(a, "-m") {
            model = value(args, i);
            i = after_value(args, i);
        } else if text::same(a, "--reason") || text::same(a, "-r") || text::same(a, "--effort") {
            effort = value(args, i);
            i = after_value(args, i);
        } else {
            let w = a.clone();
            proof {
                text::lemma_texts_push(words@, w);
            }
            words.push(w);
            i = i + 1;
        }
    }
    let task = text::join(&words, " ");
    Options { config, profile, root, model, effort, tui, events, task }
}

/// Whether one of two words stands among the arguments.
fn any_is(args: &Vec<String>, a: &str, b: &str) -> (r: bool)
    ensures
        r == (texts(args@).contains(a@) || texts(args@).contains(b@)),
{
    text::lists(args, a) || text::lists(args, b)
}

/// What a command line asks for. Probes are answered natively: each one must
/// not become a conversation.
pub fn parse(args: &Vec<String>) -> (r: Command)
    ensures
        ({
            let a = texts(args@);
            if a.contains("--version"@) || a.contains("-V"@) {
                r is Version
            } else if a.contains("--help"@) || a.contains("-h"@) {
                r is Help
            } else if a.len() > 0 && a[0] == "init"@ {
                r is Init
            } else if a.len() > 0 && a[0] == "update"@ {
                r is Update
            } else {
                r is Run && means(a, r->options)
            }
        }),
{
    if any_is(args, "--version", "-V") {
        return Command::Version;
    }
    if any_is(args, "--help", "-h") {
        return Command::Help;
    }
    if args.len() > 0 {
        assert(texts(args@)[0] == args@[0]@);
        if text::same(&args[0], "init") {
            return Command::Init;
        }
        if text::same(&args[0], "update") {
            return Command::Update;
        }
    }
    Command::Run { options: options(args) }
}

/// Whether a run is interactive: no task, or asked for.
pub fn interactive(o: &Options) -> (r: bool)
    ensures
        r == (o.tui || trimmed(o.task@).len() == 0),
{
    o.tui || text::empty(&text::trim(&o.task))
}

proof fn lemma_shifted(args: Seq<Seq<char>>, i: int, k: int, o: OptionsV)
    requires
        0 <= i <= args.len(),
        0 <= k,
    ensures
        options_from(args, i + k, o) == options_from(args.skip(i), k, o),
    decreases args.len() - i - k + 1,
{
    if i + k < args.len() {
        let rest = args.skip(i);
        assert(rest[k] == args[i + k]);
        let v = value_at(args, i + k);
        assert(v == value_at(rest, k)) by {
            if i + k + 1 < args.len() {
                assert(rest[k + 1] == args[i + k + 1]);
            }
        }
        let a = args[i + k];
        lemma_shifted(args, i, k + 2, OptionsV { config: v, ..o });
        lemma_shifted(args, i, k + 2, OptionsV { profile: v, ..o });
        lemma_shifted(
            args,
            i,
            k + 2,
            OptionsV {
                root: if v is Some {
                    v
                } else {
                    o.root
                },
                ..o
            },
        );
        lemma_shifted(args, i, k + 1, OptionsV { tui: true, ..o });
        lemma_shifted(args, i, k + 1, OptionsV { events: true, ..o });
        lemma_shifted(args, i, k + 2, OptionsV { model: v, ..o });
        lemma_shifted(args, i, k + 2, OptionsV { effort: v, ..o });
        lemma_shifted(args, i, k + 1, OptionsV { words: o.words.push(a), ..o });
    }
}

proof fn lemma_flags()
    ensures
        "--config"@.len() == 8 && "-c"@.len() == 2 && "--profile"@.len() == 9 && "-p"@.len() == 2,
        "--root"@.len() == 6 && "-C"@.len() == 2 && "--tui"@.len() == 5 && "--events"@.len() == 8,
        "--model"@.len() == 7 && "-m"@.len() == 2 && "--reason"@.len() == 8 && "-r"@.len() == 2,
        "--effort"@.len() == 8,
        "--config"@[2] == 'c' && "-c"@[1] == 'c' && "--profile"@[2] == 'p' && "-p"@[1] == 'p',
        "--root"@[2] == 'r' && "-C"@[1] == 'C' && "--tui"@[2] == 't' && "--events"@[2] == 'e',
        "--model"@[2] == 'm' && "-m"@[1] == 'm' && "--reason"@[2] == 'r' && "-r"@[1] == 'r',
        "--effort"@[2] == 'e' && "--effort"@[3] == 'f' && "--events"@[3] == 'v',
{
    reveal_strlit("--config");
    reveal_strlit("-c");
    reveal_strlit("--profile");
    reveal_strlit("-p");
    reveal_strlit("--root");
    reveal_strlit("-C");
    reveal_strlit("--tui");
    reveal_strlit("--events");
    reveal_strlit("--model");
    reveal_strlit("-m");
    reveal_strlit("--reason");
    reveal_strlit("-r");
    reveal_strlit("--effort");
}

/// An option that has a value takes the next argument as it; what follows is read
/// as it would be alone. Each option has its short name too.
pub proof fn options_take_their_values(
    flag: Seq<char>,
    x: Seq<char>,
    rest: Seq<Seq<char>>,
    o: OptionsV,
)
    ensures
        ({
            let r = options_from(seq![flag, x] + rest, 0, o);
            &&& flag == "--config"@ || flag == "-c"@ ==> r == options_from(
                rest,
                0,
                OptionsV { config: Some(x), ..o },
            )
            &&& flag == "--profile"@ || flag == "-p"@ ==> r == options_from(
                rest,
                0,
                OptionsV { profile: Some(x), ..o },
            )
            &&& flag == "--root"@ || flag == "-C"@ ==> r == options_from(
                rest,
                0,
                OptionsV { root: Some(x), ..o },
            )
            &&& flag == "--model"@ || flag == "-m"@ ==> r == options_from(
                rest,
                0,
                OptionsV { model: Some(x), ..o },
            )
            &&& flag == "--reason"@ || flag == "-r"@ || flag == "--effort"@ ==> r == options_from(
                rest,
                0,
                OptionsV { effort: Some(x), ..o },
            )
        }),
{
    lemma_flags();
    let args = seq![flag, x] + rest;
    assert(args[0] == flag && args[1] == x);
    assert(args.skip(2) =~= rest);
    lemma_shifted(args, 2, 0, OptionsV { config: Some(x), ..o });
    lemma_shifted(args, 2, 0, OptionsV { profile: Some(x), ..o });
    lemma_shifted(args, 2, 0, OptionsV { root: Some(x), ..o });
    lemma_shifted(args, 2, 0, OptionsV { model: Some(x), ..o });
    lemma_shifted(args, 2, 0, OptionsV { effort: Some(x), ..o });
}

/// A switch stands alone; an argument that is no option is a word of the task, and
/// the words keep their order.
pub proof fn switches_and_words(word: Seq<char>, rest: Seq<Seq<char>>, o: OptionsV)
    ensures
        options_from(Seq::empty(), 0, o) == o,
        options_from(seq!["--tui"@] + rest, 0, o) == options_from(
            rest,
            0,
            OptionsV { tui: true, ..o },
        ),
        options_from(seq!["--events"@] + rest, 0, o) == options_from(
            rest,
            0,
            OptionsV { events: true, ..o },
        ),
        (word.len() == 0 || word[0] != '-') ==> options_from(seq![word] + rest, 0, o)
            == options_from(rest, 0, OptionsV { words: o.words.push(word), ..o }),
{
    lemma_flags();
    lemma_dashes();
    let a = seq!["--tui"@] + rest;
    assert(a[0] == "--tui"@);
    assert(a.skip(1) =~= rest);
    lemma_shifted(a, 1, 0, OptionsV { tui: true, ..o });
    let b = seq!["--events"@] + rest;
    assert(b[0] == "--events"@);
    assert(b.skip(1) =~= rest);
    lemma_shifted(b, 1, 0, OptionsV { events: true, ..o });
    let c = seq![word] + rest;
    assert(c[0] == word);
    assert(c.skip(1) =~= rest);
    lemma_shifted(c, 1, 0, OptionsV { words: o.words.push(word), ..o });
}

proof fn lemma_dashes()
    ensures
        "--config"@[0] == '-' && "-c"@[0] == '-' && "--profile"@[0] == '-' && "-p"@[0] == '-',
        "--root"@[0] == '-' && "-C"@[0] == '-' && "--tui"@[0] == '-' && "--events"@[0] == '-',
        "--model"@[0] == '-' && "-m"@[0] == '-' && "--reason"@[0] == '-' && "-r"@[0] == '-',
        "--effort"@[0] == '-',
{
    reveal_strlit("--config");
    reveal_strlit("-c");
    reveal_strlit("--profile");
    reveal_strlit("-p");
    reveal_strlit("--root");
    reveal_strlit("-C");
    reveal_strlit("--tui");
    reveal_strlit("--events");
    reveal_strlit("--model");
    reveal_strlit("-m");
    reveal_strlit("--reason");
    reveal_strlit("-r");
    reveal_strlit("--effort");
}

/// A root without its value leaves the root as it was; every other option without
/// its value counts as not given.
pub proof fn options_without_a_value(o: OptionsV)
    ensures
        options_from(seq!["--root"@], 0, o) == o,
        options_from(seq!["--config"@], 0, o) == (OptionsV { config: None, ..o }),
        options_from(seq!["--model"@], 0, o) == (OptionsV { model: None, ..o }),
{
    lemma_flags();
    assert(seq!["--root"@][0] == "--root"@);
    assert(seq!["--config"@][0] == "--config"@);
    assert(seq!["--model"@][0] == "--model"@);
    reveal_with_fuel(options_from, 2);
}

/// A command line means the options it gives and the task that its words make up,
/// with a space between each two.
pub proof fn words_make_up_the_task(words: Seq<Seq<char>>, r: Options)
    requires
        means(words, r),
        forall|i: int| 0 <= i < words.len() ==> (#[trigger] words[i]).len() > 0 && words[i][0] != '-',
    ensures
        r.task@ == joined(words, seq![' ']),
        r.config is None,
        r.profile is None,
        r.root is None,
        r.model is None,
        r.effort is None,
        !r.tui,
        !r.events,
{
    reveal_strlit(" ");
    assert(" "@ =~= seq![' ']);
    lemma_words(words, no_options());
    assert(no_options().words + words =~= words);
}

proof fn lemma_words(words: Seq<Seq<char>>, o: OptionsV)
    requires
        forall|i: int| 0 <= i < words.len() ==> (#[trigger] words[i]).len() > 0 && words[i][0] != '-',
    ensures
        options_from(words, 0, o) == (OptionsV { words: o.words + words, ..o }),
    decreases words.len(),
{
    if words.len() == 0 {
        assert(o.words + words =~= o.words);
    } else {
        let rest = words.skip(1);
        assert forall|i: int| 0 <= i < rest.len() implies (#[trigger] rest[i]).len() > 0
            && rest[i][0] != '-' by {
            assert(rest[i] == words[i + 1]);
        }
        assert(words =~= seq![words[0]] + rest);
        switches_and_words(words[0], rest, o);
        lemma_words(rest, OptionsV { words: o.words.push(words[0]), ..o });
        assert(o.words.push(words[0]) + rest =~= o.words + words);
    }
}

} // verus!
