//! The line protocol. One verb per line; multi-line payloads (E/I/N, and S or
//! X with `<<`) end with a lone "." line. A payload line that must literally
//! start with "." is written with one extra leading dot.
//!
//!   R <id|path> [a:b]      read (numbered lines)
//!   E <id> <a>:<b>         replace lines a..=b, payload follows
//!   I <id> <a>             insert after line a (0 = top), payload follows
//!   N <path>               create file, payload follows
//!   G <regex> [id|path]    search
//!   X <shell...>           run command (`X <<`: a script, payload follows)
//!   A <profile> <task...>  subagent
//!   P <step> <status>      set a plan step's status
//!   B <why...>             ask for deliberation
//!   V <id|path>            view an image
//!   O [id|path]            outline
//!   S <text...>            say to the user (`S <<`: payload follows)
//!   D <message...>         done (rest of stream joins the message)
//!   <cfg verb> <args...>   config-declared tool

use crate::json;
use crate::json::json_is_object;
use crate::json::json_member;
use crate::json::json_value;
use crate::json::str_member;
use crate::json::u64_member;
use crate::text;
use crate::text::cut;
use crate::text::decimal;
use crate::text::found_from;
use crate::text::head;
use crate::text::is_space;
use crate::text::is_upper;
use crate::text::joined;
use crate::text::opt_text;
use crate::text::parsed_upto;
use crate::text::tail;
use crate::text::texts;
use crate::text::trimmed;
use crate::text::trimmed_start;
use crate::text::without_tail_run;
use vstd::prelude::*;

verus! {

/// One command of the model.
#[allow(inconsistent_fields)]
#[derive(Debug, Clone, PartialEq)]
pub enum Cmd {
    Read { target: String, range: Option<(usize, usize)> },
    Edit { target: String, a: usize, b: usize, body: String },
    Insert { target: String, after: usize, body: String },
    New { path: String, body: String },
    Grep { pat: String, target: Option<String> },
    Exec { line: String },
    Agent { profile: String, task: String },
    Done { msg: String },
    /// View an image file: attached to the next model request.
    View { target: String },
    /// Say something to the user without ending the run.
    Say { text: String },
    /// Signature outline of a file or directory (codemap).
    Outline { target: String },
    /// Search/replace edit (cc-json dialect: the Edit tool's old/new strings).
    Replace { target: String, old: String, new: String },
    /// Set the status of one plan step.
    PlanStep { id: String, status: String },
    /// Ask for deliberation in the next turns.
    Think { why: String },
    Custom { verb: char, args: String },
}

/// What a command says, as mathematical values.
#[allow(inconsistent_fields)]
#[verifier::ext_equal]
pub enum CmdV {
    Read { target: Seq<char>, range: Option<(usize, usize)> },
    Edit { target: Seq<char>, a: usize, b: usize, body: Seq<char> },
    Insert { target: Seq<char>, after: usize, body: Seq<char> },
    New { path: Seq<char>, body: Seq<char> },
    Grep { pat: Seq<char>, target: Option<Seq<char>> },
    Exec { line: Seq<char> },
    Agent { profile: Seq<char>, task: Seq<char> },
    Done { msg: Seq<char> },
    View { target: Seq<char> },
    Say { text: Seq<char> },
    Outline { target: Seq<char> },
    Replace { target: Seq<char>, old: Seq<char>, new: Seq<char> },
    PlanStep { id: Seq<char>, status: Seq<char> },
    Think { why: Seq<char> },
    Custom { verb: char, args: Seq<char> },
}

impl View for Cmd {
    type V = CmdV;

    open spec fn view(&self) -> CmdV {
        match *self {
            Cmd::Read { target, range } => CmdV::Read { target: target@, range },
            Cmd::Edit { target, a, b, body } => CmdV::Edit { target: target@, a, b, body: body@ },
            Cmd::Insert { target, after, body } => CmdV::Insert {
                target: target@,
                after,
                body: body@,
            },
            Cmd::New { path, body } => CmdV::New { path: path@, body: body@ },
            Cmd::Grep { pat, target } => CmdV::Grep { pat: pat@, target: opt_text(target) },
            Cmd::Exec { line } => CmdV::Exec { line: line@ },
            Cmd::Agent { profile, task } => CmdV::Agent { profile: profile@, task: task@ },
            Cmd::Done { msg } => CmdV::Done { msg: msg@ },
            Cmd::View { target } => CmdV::View { target: target@ },
            Cmd::Say { text } => CmdV::Say { text: text@ },
            Cmd::Outline { target } => CmdV::Outline { target: target@ },
            Cmd::Replace { target, old, new } => CmdV::Replace {
                target: target@,
                old: old@,
                new: new@,
            },
            Cmd::PlanStep { id, status } => CmdV::PlanStep { id: id@, status: status@ },
            Cmd::Think { why } => CmdV::Think { why: why@ },
            Cmd::Custom { verb, args } => CmdV::Custom { verb, args: args@ },
        }
    }
}

/// What a sequence of commands says.
pub open spec fn cmds(v: Seq<Cmd>) -> Seq<CmdV> {
    v.map_values(|c: Cmd| c@)
}

pub proof fn lemma_cmds_push(v: Seq<Cmd>, c: Cmd)
    ensures
        cmds(v.push(c)) == cmds(v).push(c@),
        cmds(v.push(c)) == cmds(v) + seq![c@],
{
    assert(cmds(v.push(c)) =~= cmds(v).push(c@));
    assert(cmds(v).push(c@) =~= cmds(v) + seq![c@]);
}

/// The command whose payload is being collected.
enum Pending {
    Edit { target: String, a: usize, b: usize },
    Insert { target: String, after: usize },
    New { path: String },
    Say,
    Exec,
}

/// What the open command says.
pub enum PendV {
    Edit { target: Seq<char>, a: usize, b: usize },
    Insert { target: Seq<char>, after: usize },
    New { path: Seq<char> },
    Say,
    Exec,
}

impl View for Pending {
    type V = PendV;

    closed spec fn view(&self) -> PendV {
        match *self {
            Pending::Edit { target, a, b } => PendV::Edit { target: target@, a, b },
            Pending::Insert { target, after } => PendV::Insert { target: target@, after },
            Pending::New { path } => PendV::New { path: path@ },
            Pending::Say => PendV::Say,
            Pending::Exec => PendV::Exec,
        }
    }
}

// ---------------------------------------------------------------------------
// One line
// ---------------------------------------------------------------------------

/// What one command line asks for.
pub enum ActV {
    /// A complete command.
    Emit(CmdV),
    /// A command whose payload follows.
    Open(PendV),
    /// The final message; the rest of the stream joins it.
    Finish(Seq<char>),
    /// A command line with arguments that do not parse.
    Nothing,
    /// No command at all.
    Prose,
}

enum Act {
    Emit(Cmd),
    Open(Pending),
    Finish(String),
    Nothing,
    Prose,
}

impl View for Act {
    type V = ActV;

    closed spec fn view(&self) -> ActV {
        match *self {
            Act::Emit(c) => ActV::Emit(c@),
            Act::Open(p) => ActV::Open(p@),
            Act::Finish(m) => ActV::Finish(m@),
            Act::Nothing => ActV::Nothing,
            Act::Prose => ActV::Prose,
        }
    }
}

/// The line range `a:b` written in `s`.
pub open spec fn range_in(s: Seq<char>) -> Option<(usize, usize)> {
    match cut(trimmed(s), ':') {
        Some((a, b)) => match (parsed_upto(a, usize::MAX as nat), parsed_upto(b, usize::MAX as nat)) {
            (Some(x), Some(y)) => Some((x as usize, y as usize)),
            _ => None,
        },
        None => None,
    }
}

fn parse_range(s: &str) -> (r: Option<(usize, usize)>)
    ensures
        r == range_in(s@),
{
    match text::split_once(&text::trim(s), ':') {
        Some((a, b)) => match (text::parse_usize(&a), text::parse_usize(&b)) {
            (Some(x), Some(y)) => Some((x, y)),
            _ => None,
        },
        None => None,
    }
}

/// `s` unless it is empty.
pub open spec fn unless_empty(s: Seq<char>) -> Option<Seq<char>> {
    if s.len() > 0 {
        Some(s)
    } else {
        None
    }
}

fn keep_unless_empty(s: String) -> (r: Option<String>)
    ensures
        opt_text(r) == unless_empty(s@),
{
    if text::empty(&s) {
        None
    } else {
        Some(s)
    }
}

/// The pattern and the target of a search: `pattern [target]`, where the
/// pattern may be "quoted with spaces" or a bare word.
pub open spec fn pattern_in(rest: Seq<char>) -> (Seq<char>, Option<Seq<char>>) {
    if rest.len() > 0 && rest[0] == '"' && cut(rest.skip(1), '"') is Some {
        let (pat, after) = cut(rest.skip(1), '"')->0;
        (pat, unless_empty(trimmed(after)))
    } else {
        (head(rest, ' '), unless_empty(trimmed(tail(rest, ' '))))
    }
}

fn split_pattern(rest: &str) -> (r: (String, Option<String>))
    ensures
        (r.0@, opt_text(r.1)) == pattern_in(rest@),
{
    proof {
        reveal_strlit("\"");
        assert("\""@ =~= seq!['"']);
    }
    if let Some(q) = text::strip_prefix(rest, "\"") {
        proof {
            assert(rest@.subrange(0, 1)[0] == rest@[0]);
        }
        if let Some((pat, after)) = text::split_once(&q, '"') {
            return (pat, keep_unless_empty(text::trim(&after)));
        }
    } else {
        proof {
            if rest@.len() > 0 && rest@[0] == '"' {
                assert(rest@.subrange(0, 1) =~= "\""@);
            }
        }
    }
    let (pat, target) = text::split_head(rest, ' ');
    (pat, keep_unless_empty(text::trim(&target)))
}

/// What the verb `v` with the arguments `rest` asks for.
pub open spec fn act_of(v: char, rest: Seq<char>) -> ActV {
    let first = head(rest, ' ');
    let second = tail(rest, ' ');
    if v == 'R' {
        if first.len() > 0 {
            ActV::Emit(CmdV::Read { target: first, range: range_in(second) })
        } else {
            ActV::Nothing
        }
    } else if v == 'E' {
        match range_in(second) {
            Some((a, b)) => ActV::Open(PendV::Edit { target: first, a, b }),
            None => ActV::Nothing,
        }
    } else if v == 'I' {
        match parsed_upto(trimmed(second), usize::MAX as nat) {
            Some(n) => ActV::Open(PendV::Insert { target: first, after: n as usize }),
            None => ActV::Nothing,
        }
    } else if v == 'N' {
        if rest.len() > 0 {
            ActV::Open(PendV::New { path: rest })
        } else {
            ActV::Nothing
        }
    } else if v == 'G' {
        let (pat, target) = pattern_in(rest);
        if pat.len() > 0 {
            ActV::Emit(CmdV::Grep { pat, target })
        } else {
            ActV::Nothing
        }
    } else if v == 'X' {
        if rest == "<<"@ {
            ActV::Open(PendV::Exec)
        } else if rest.len() > 0 {
            ActV::Emit(CmdV::Exec { line: rest })
        } else {
            ActV::Nothing
        }
    } else if v == 'A' {
        if first.len() > 0 && trimmed(second).len() > 0 {
            ActV::Emit(CmdV::Agent { profile: first, task: trimmed(second) })
        } else {
            ActV::Nothing
        }
    } else if v == 'P' {
        if first.len() > 0 && trimmed(second).len() > 0 {
            ActV::Emit(CmdV::PlanStep { id: first, status: trimmed(second) })
        } else {
            ActV::Nothing
        }
    } else if v == 'B' {
        ActV::Emit(CmdV::Think { why: rest })
    } else if v == 'V' {
        if rest.len() > 0 {
            ActV::Emit(CmdV::View { target: rest })
        } else {
            ActV::Nothing
        }
    } else if v == 'S' {
        if rest == "<<"@ {
            ActV::Open(PendV::Say)
        } else if rest.len() > 0 {
            ActV::Emit(CmdV::Say { text: rest })
        } else {
            ActV::Nothing
        }
    } else if v == 'O' {
        ActV::Emit(CmdV::Outline { target: rest })
    } else if v == 'D' {
        ActV::Finish(rest)
    } else {
        ActV::Emit(CmdV::Custom { verb: v, args: rest })
    }
}

fn act(v: char, rest: String) -> (r: Act)
    ensures
        r@ == act_of(v, rest@),
{
    if v == 'R' {
        let (target, second) = text::split_head(&rest, ' ');
        if text::empty(&target) {
            Act::Nothing
        } else {
            Act::Emit(Cmd::Read { target, range: parse_range(&second) })
        }
    } else if v == 'E' {
        let (target, second) = text::split_head(&rest, ' ');
        match parse_range(&second) {
            Some((a, b)) => Act::Open(Pending::Edit { target, a, b }),
            None => Act::Nothing,
        }
    } else if v == 'I' {
        let (target, second) = text::split_head(&rest, ' ');
        match text::parse_usize(&text::trim(&second)) {
            Some(after) => Act::Open(Pending::Insert { target, after }),
            None => Act::Nothing,
        }
    } else if v == 'N' {
        if text::empty(&rest) {
            Act::Nothing
        } else {
            Act::Open(Pending::New { path: rest })
        }
    } else if v == 'G' {
        let (pat, target) = split_pattern(&rest);
        if text::empty(&pat) {
            Act::Nothing
        } else {
            Act::Emit(Cmd::Grep { pat, target })
        }
    } else if v == 'X' {
        if text::same(&rest, "<<") {
            Act::Open(Pending::Exec)
        } else if text::empty(&rest) {
            Act::Nothing
        } else {
            Act::Emit(Cmd::Exec { line: rest })
        }
    } else if v == 'A' {
        let (profile, second) = text::split_head(&rest, ' ');
        let task = text::trim(&second);
        if text::empty(&profile) || text::empty(&task) {
            Act::Nothing
        } else {
            Act::Emit(Cmd::Agent { profile, task })
        }
    } else if v == 'P' {
        let (id, second) = text::split_head(&rest, ' ');
        let status = text::trim(&second);
        if text::empty(&id) || text::empty(&status) {
            Act::Nothing
        } else {
            Act::Emit(Cmd::PlanStep { id, status })
        }
    } else if v == 'B' {
        Act::Emit(Cmd::Think { why: rest })
    } else if v == 'V' {
        if text::empty(&rest) {
            Act::Nothing
        } else {
            Act::Emit(Cmd::View { target: rest })
        }
    } else if v == 'S' {
        if text::same(&rest, "<<") {
            Act::Open(Pending::Say)
        } else if text::empty(&rest) {
            Act::Nothing
        } else {
            Act::Emit(Cmd::Say { text: rest })
        }
    } else if v == 'O' {
        Act::Emit(Cmd::Outline { target: rest })
    } else if v == 'D' {
        Act::Finish(rest)
    } else {
        Act::Emit(Cmd::Custom { verb: v, args: rest })
    }
}

/// What a line of text asks for: a verb is one upper-case ASCII letter that
/// stands alone or before a space.
pub open spec fn line_act(line: Seq<char>) -> ActV {
    let verb = head(line, ' ');
    if verb.len() == 1 && is_upper(verb[0]) {
        act_of(verb[0], trimmed(tail(line, ' ')))
    } else {
        ActV::Prose
    }
}

fn act_on_line(line: &str) -> (r: Act)
    ensures
        r@ == line_act(line@),
{
    let (verb, rest) = text::split_head(line, ' ');
    let v = text::chars_of(&verb);
    if v.len() == 1 && 'A' <= v[0] && v[0] <= 'Z' {
        act(v[0], text::trim(&rest))
    } else {
        Act::Prose
    }
}

// ---------------------------------------------------------------------------
// Tool calls in JSON
// ---------------------------------------------------------------------------

/// The arguments of a JSON tool call that some tool reads.
pub struct ToolArgs {
    pub command: Option<String>,
    pub file_path: Option<String>,
    pub path: Option<String>,
    pub content: Option<String>,
    pub old_string: Option<String>,
    pub new_string: Option<String>,
    pub pattern: Option<String>,
    pub prompt: Option<String>,
    pub offset: Option<u64>,
    pub limit: Option<u64>,
}

/// What the arguments say.
#[verifier::ext_equal]
pub struct ArgsV {
    pub command: Option<Seq<char>>,
    pub file_path: Option<Seq<char>>,
    pub path: Option<Seq<char>>,
    pub content: Option<Seq<char>>,
    pub old_string: Option<Seq<char>>,
    pub new_string: Option<Seq<char>>,
    pub pattern: Option<Seq<char>>,
    pub prompt: Option<Seq<char>>,
    pub offset: Option<u64>,
    pub limit: Option<u64>,
}

impl View for ToolArgs {
    type V = ArgsV;

    open spec fn view(&self) -> ArgsV {
        ArgsV {
            command: opt_text(self.command),
            file_path: opt_text(self.file_path),
            path: opt_text(self.path),
            content: opt_text(self.content),
            old_string: opt_text(self.old_string),
            new_string: opt_text(self.new_string),
            pattern: opt_text(self.pattern),
            prompt: opt_text(self.prompt),
            offset: self.offset,
            limit: self.limit,
        }
    }
}

/// The first of two texts that is there.
pub open spec fn either(a: Option<Seq<char>>, b: Option<Seq<char>>) -> Option<Seq<char>> {
    if a is Some {
        a
    } else {
        b
    }
}

fn first_given(a: Option<String>, b: Option<String>) -> (r: Option<String>)
    ensures
        opt_text(r) == either(opt_text(a), opt_text(b)),
{
    if a.is_some() {
        a
    } else {
        b
    }
}

/// The lines that an offset and a limit select; open at the end without a
/// limit, everything without an offset.
pub open spec fn window_of(offset: Option<u64>, limit: Option<u64>) -> Option<(usize, usize)> {
    match (offset, limit) {
        (Some(o), Some(l)) => Some((o as usize, o.wrapping_add(l).wrapping_sub(1) as usize)),
        (Some(o), None) => Some((o as usize, (usize::MAX / 2) as usize)),
        _ => None,
    }
}

/// The command that a tool call stands for; none for an unknown tool or a
/// call without the arguments its tool needs.
pub open spec fn mapped(tool: Seq<char>, a: ArgsV) -> Option<CmdV> {
    if tool == "Bash"@ {
        match a.command {
            Some(line) => Some(CmdV::Exec { line }),
            None => None,
        }
    } else if tool == "Read"@ {
        match either(a.file_path, a.path) {
            Some(target) => Some(CmdV::Read { target, range: window_of(a.offset, a.limit) }),
            None => None,
        }
    } else if tool == "Write"@ {
        match (either(a.file_path, a.path), a.content) {
            (Some(path), Some(body)) => Some(CmdV::New { path, body }),
            _ => None,
        }
    } else if tool == "Edit"@ {
        match (either(a.file_path, a.path), a.old_string, a.new_string) {
            (Some(target), Some(old), Some(new)) => Some(CmdV::Replace { target, old, new }),
            _ => None,
        }
    } else if tool == "Grep"@ || tool == "Glob"@ {
        match a.pattern {
            Some(pat) => Some(CmdV::Grep { pat, target: a.path }),
            None => None,
        }
    } else if tool == "Task"@ {
        match a.prompt {
            Some(task) => Some(CmdV::Agent { profile: "researcher"@, task }),
            None => None,
        }
    } else {
        None
    }
}

/// What an optional command says.
pub open spec fn opt_cmd(c: Option<Cmd>) -> Option<CmdV> {
    match c {
        Some(c) => Some(c@),
        None => None,
    }
}

/// Maps a tool call onto a command of the protocol.
pub fn map_cc_tool(tool: &str, args: ToolArgs) -> (r: Option<Cmd>)
    ensures
        opt_cmd(r) == mapped(tool@, args@),
{
    if text::same(tool, "Bash") {
        match args.command {
            Some(line) => Some(Cmd::Exec { line }),
            None => None,
        }
    } else if text::same(tool, "Read") {
        let range = match (args.offset, args.limit) {
            (Some(o), Some(l)) => Some((o as usize, o.wrapping_add(l).wrapping_sub(1) as usize)),
            (Some(o), None) => Some((o as usize, usize::MAX / 2)),
            _ => None,
        };
        match first_given(args.file_path, args.path) {
            Some(target) => Some(Cmd::Read { target, range }),
            None => None,
        }
    } else if text::same(tool, "Write") {
        match (first_given(args.file_path, args.path), args.content) {
            (Some(path), Some(body)) => Some(Cmd::New { path, body }),
            _ => None,
        }
    } else if text::same(tool, "Edit") {
        match (first_given(args.file_path, args.path), args.old_string, args.new_string) {
            (Some(target), Some(old), Some(new)) => Some(Cmd::Replace { target, old, new }),
            _ => None,
        }
    } else if text::same(tool, "Grep") || text::same(tool, "Glob") {
        match args.pattern {
            Some(pat) => Some(Cmd::Grep { pat, target: args.path }),
            None => None,
        }
    } else if text::same(tool, "Task") {
        match args.prompt {
            Some(task) => Some(Cmd::Agent { profile: "researcher".to_string(), task }),
            None => None,
        }
    } else {
        None
    }
}

/// The arguments held by a JSON object.
pub open spec fn args_in(v: serde_json::Value) -> ArgsV {
    ArgsV {
        command: str_member(v, "command"@),
        file_path: str_member(v, "file_path"@),
        path: str_member(v, "path"@),
        content: str_member(v, "content"@),
        old_string: str_member(v, "old_string"@),
        new_string: str_member(v, "new_string"@),
        pattern: str_member(v, "pattern"@),
        prompt: str_member(v, "prompt"@),
        offset: u64_member(v, "offset"@),
        limit: u64_member(v, "limit"@),
    }
}

fn read_args(v: &serde_json::Value) -> (r: ToolArgs)
    ensures
        r@ == args_in(*v),
{
    ToolArgs {
        command: json::string_at(v, "command"),
        file_path: json::string_at(v, "file_path"),
        path: json::string_at(v, "path"),
        content: json::string_at(v, "content"),
        old_string: json::string_at(v, "old_string"),
        new_string: json::string_at(v, "new_string"),
        pattern: json::string_at(v, "pattern"),
        prompt: json::string_at(v, "prompt"),
        offset: json::number_at(v, "offset"),
        limit: json::number_at(v, "limit"),
    }
}

/// The command of a line `{"tool": name, "input": arguments}`; `name` and
/// `arguments` are accepted in place of `tool` and `input`.
pub open spec fn cc_call(line: Seq<char>) -> Option<CmdV> {
    match json_value(line) {
        Ok(v) => {
            let input = json_member(v, "input"@);
            let args = if json_is_object(input) {
                input
            } else {
                json_member(v, "arguments"@)
            };
            match either(str_member(v, "tool"@), str_member(v, "name"@)) {
                Some(tool) => mapped(tool, args_in(args)),
                None => None,
            }
        },
        Err(_) => None,
    }
}

/// Reads a tool call that is all of a line.
pub fn parse_cc_tool(line: &str) -> (r: Option<Cmd>)
    ensures
        opt_cmd(r) == cc_call(line@),
{
    match json::parse_json(line) {
        Ok(v) => {
            let tool = first_given(json::string_at(&v, "tool"), json::string_at(&v, "name"));
            let input = json::member(&v, "input");
            let args = if input.is_object() {
                read_args(input)
            } else {
                read_args(json::member(&v, "arguments"))
            };
            match tool {
                Some(t) => map_cc_tool(&t, args),
                None => None,
            }
        },
        Err(_) => None,
    }
}

/// The command of a call whose tool stands before its JSON arguments.
pub open spec fn cc_named_call(name: Seq<char>, input: Seq<char>) -> Option<CmdV> {
    match json_value(input) {
        Ok(v) => mapped(name, args_in(v)),
        Err(_) => None,
    }
}

/// Reads the transcript form `Name input={json}`.
pub fn parse_cc_tool_named(name: &str, json_part: &str) -> (r: Option<Cmd>)
    ensures
        opt_cmd(r) == cc_named_call(name@, json_part@),
{
    match json::parse_json(json_part) {
        Ok(v) => map_cc_tool(name, read_args(&v)),
        Err(_) => None,
    }
}

/// Where the word that ends at `j` starts: after the last space or closing
/// bracket before it.
pub open spec fn word_start(s: Seq<char>, j: int) -> int
    decreases j,
{
    if 0 < j <= s.len() && s[j - 1] != ' ' && s[j - 1] != ')' {
        word_start(s, j - 1)
    } else {
        j
    }
}

/// The last word of `s`.
pub open spec fn last_word(s: Seq<char>) -> Seq<char> {
    s.skip(word_start(s, s.len() as int))
}

fn final_word(s: &str) -> (r: String)
    ensures
        r@ == last_word(s@),
{
    let v = text::chars_of(s);
    let mut j: usize = v.len();
    while j > 0 && v[j - 1] != ' ' && v[j - 1] != ')'
        invariant
            j <= v@.len(),
            v@ == s@,
            word_start(s@, s@.len() as int) == word_start(s@, j as int),
        decreases j,
    {
        j -= 1;
    }
    text::text_between(&v, j, v.len())
}

/// What a line says in the JSON dialect: `None` where it is no tool call, and
/// else the command, if the call stands for one. In the transcript form the
/// word before `input={` is the tool; what stands before that word is noise.
pub open spec fn cc_line(line: Seq<char>) -> Option<Option<CmdV>> {
    match found_from(line, " input={"@, 0) {
        Some(i) if last_word(line.take(i)).len() > 0 => {
            Some(cc_named_call(last_word(line.take(i)), line.skip(i + 7)))
        },
        _ => if line.len() > 0 && line[0] == '{' {
            Some(cc_call(line))
        } else {
            None
        },
    }
}

fn act_on_cc_line(line: &str) -> (r: Option<Option<Cmd>>)
    ensures
        match r {
            Some(c) => cc_line(line@) == Some(opt_cmd(c)),
            None => cc_line(line@) is None,
        },
{
    proof {
        reveal_strlit(" input={");
    }
    let v = text::chars_of(line);
    if let Some(i) = text::find(line, " input={") {
        let before = text::text_between(&v, 0, i);
        let name = final_word(&before);
        if !text::empty(&name) {
            assert(i + 8 <= v.len());
            let input = text::text_between(&v, i + 7, v.len());
            proof {
                assert(before@ =~= line@.take(i as int));
                assert(input@ =~= line@.skip(i + 7));
            }
            return Some(parse_cc_tool_named(&name, &input));
        }
        proof {
            assert(before@ =~= line@.take(i as int));
        }
    }
    if v.len() > 0 && v[0] == '{' {
        Some(parse_cc_tool(line))
    } else {
        None
    }
}

// ---------------------------------------------------------------------------
// The lexer
// ---------------------------------------------------------------------------

/// Feed streamed model output in arbitrary chunks; complete commands come out
/// the moment their final character arrives, so tools can run while the model
/// is still generating the rest of the message.
pub struct Lexer {
    buf: String,
    pending: Option<(Pending, Vec<String>)>,
    done_msg: Option<String>,
    /// Accept JSON tool-call lines as commands.
    cc_json: bool,
    /// Lines of plain prose that were dropped.
    pub dropped: usize,
    /// The dropped lines themselves.
    pub dropped_text: String,
}

/// The state of a lexer.
#[verifier::ext_equal]
pub struct LexV {
    /// The start of a line whose end has not come yet.
    pub buf: Seq<char>,
    /// The open command and the payload lines so far.
    pub pending: Option<(PendV, Seq<Seq<char>>)>,
    /// The final message so far.
    pub done: Option<Seq<char>>,
    pub cc: bool,
    pub dropped: nat,
    pub dropped_text: Seq<char>,
}

impl View for Lexer {
    type V = LexV;

    closed spec fn view(&self) -> LexV {
        LexV {
            buf: self.buf@,
            pending: match self.pending {
                Some((p, body)) => Some((p@, texts(body@))),
                None => None,
            },
            done: opt_text(self.done_msg),
            cc: self.cc_json,
            dropped: self.dropped as nat,
            dropped_text: self.dropped_text@,
        }
    }
}

/// The command that an open command becomes with its payload.
pub open spec fn closed_with(p: PendV, body: Seq<Seq<char>>) -> CmdV {
    let body = joined(body, "\n"@);
    match p {
        PendV::Edit { target, a, b } => CmdV::Edit { target, a, b, body },
        PendV::Insert { target, after } => CmdV::Insert { target, after, body },
        PendV::New { path } => CmdV::New { path, body },
        PendV::Say => CmdV::Say { text: body },
        PendV::Exec => CmdV::Exec { line: body },
    }
}

fn close_payload(p: Pending, body: Vec<String>) -> (r: Cmd)
    ensures
        r@ == closed_with(p@, texts(body@)),
{
    let body = text::join(&body, "\n");
    match p {
        Pending::Edit { target, a, b } => Cmd::Edit { target, a, b, body },
        Pending::Insert { target, after } => Cmd::Insert { target, after, body },
        Pending::New { path } => Cmd::New { path, body },
        Pending::Say => Cmd::Say { text: body },
        Pending::Exec => Cmd::Exec { line: body },
    }
}

/// A payload line as it is stored: without one leading dot.
pub open spec fn payload_line(line: Seq<char>) -> Seq<char> {
    if line.len() > 0 && line[0] == '.' {
        line.skip(1)
    } else {
        line
    }
}

/// The state after one dropped line.
pub open spec fn with_dropped(st: LexV, line: Seq<char>) -> LexV {
    LexV {
        dropped: if st.dropped < usize::MAX {
            st.dropped + 1
        } else {
            st.dropped
        },
        dropped_text: st.dropped_text + line + "\n"@,
        ..st
    }
}

/// The state after one whole line, and the commands it completes.
pub open spec fn lexed_line(st: LexV, line: Seq<char>) -> (LexV, Seq<CmdV>) {
    let none = Seq::<CmdV>::empty();
    if st.done is Some {
        (LexV { done: Some(st.done->0 + "\n"@ + line), ..st }, none)
    } else if st.pending is Some {
        let (p, body) = st.pending->0;
        if line == "."@ {
            (LexV { pending: None, ..st }, seq![closed_with(p, body)])
        } else {
            (LexV { pending: Some((p, body.push(payload_line(line)))), ..st }, none)
        }
    } else {
        let line = trimmed_start(line);
        if line.len() == 0 {
            (st, none)
        } else if st.cc && cc_line(line) is Some {
            match cc_line(line)->0 {
                Some(c) => (st, seq![c]),
                None => (st, none),
            }
        } else {
            match line_act(line) {
                ActV::Emit(c) => (st, seq![c]),
                ActV::Open(p) => (LexV { pending: Some((p, Seq::empty())), ..st }, none),
                ActV::Finish(m) => (LexV { done: Some(m), ..st }, none),
                ActV::Nothing => (st, none),
                ActV::Prose => (with_dropped(st, line), none),
            }
        }
    }
}

/// The state after one more character: a line is complete at its `\n`, and
/// carriage returns at its end are not part of it.
pub open spec fn lexed_char(st: LexV, c: char) -> (LexV, Seq<CmdV>) {
    if c == '\n' {
        lexed_line(LexV { buf: Seq::empty(), ..st }, without_tail_run(st.buf, '\r'))
    } else {
        (LexV { buf: st.buf.push(c), ..st }, Seq::empty())
    }
}

/// The state after the characters of `s`, and the commands they complete.
pub open spec fn lexed(st: LexV, s: Seq<char>) -> (LexV, Seq<CmdV>)
    decreases s.len(),
{
    if s.len() == 0 {
        (st, Seq::empty())
    } else {
        let (before, first) = lexed(st, s.drop_last());
        let (after, last) = lexed_char(before, s.last());
        (after, first + last)
    }
}

/// The state after the end of the stream, and the commands that it completes:
/// a last line without its end counts, an open payload is closed as it is,
/// and the final message comes out.
pub open spec fn lexed_end(st: LexV) -> (LexV, Seq<CmdV>) {
    let (mid, first) = if st.buf.len() > 0 {
        lexed_line(LexV { buf: Seq::empty(), ..st }, without_tail_run(st.buf, '\r'))
    } else {
        (st, Seq::empty())
    };
    let closing = match mid.pending {
        Some((p, body)) => seq![closed_with(p, body)],
        None => Seq::empty(),
    };
    let ending = match mid.done {
        Some(m) => seq![CmdV::Done { msg: trimmed(m) }],
        None => Seq::empty(),
    };
    (LexV { pending: None, done: None, ..mid }, first + closing + ending)
}

/// A lexer that has seen nothing.
pub open spec fn fresh(cc: bool) -> LexV {
    LexV {
        buf: Seq::empty(),
        pending: None,
        done: None,
        cc,
        dropped: 0,
        dropped_text: Seq::empty(),
    }
}

impl Default for Lexer {
    fn default() -> (r: Self)
        ensures
            r@ == fresh(false),
    {
        Lexer::new()
    }
}

impl Lexer {
    pub fn new() -> (r: Lexer)
        ensures
            r@ == fresh(false),
    {
        Lexer::new_dialect(false)
    }

    pub fn new_dialect(cc_json: bool) -> (r: Lexer)
        ensures
            r@ == fresh(cc_json),
    {
        Lexer {
            buf: String::new(),
            pending: None,
            done_msg: None,
            cc_json,
            dropped: 0,
            dropped_text: String::new(),
        }
    }

    /// How many lines of plain prose were dropped.
    pub fn dropped_count(&self) -> (n: usize)
        ensures
            n == self@.dropped,
    {
        self.dropped
    }

    /// The dropped lines.
    pub fn dropped_prose(&self) -> (s: &String)
        ensures
            s@ == self@.dropped_text,
    {
        &self.dropped_text
    }

    /// Takes in one chunk of the stream and appends the commands it completes.
    pub fn feed(&mut self, chunk: &str, out: &mut Vec<Cmd>)
        ensures
            final(self)@ == lexed(old(self)@, chunk@).0,
            cmds(final(out)@) == cmds(old(out)@) + lexed(old(self)@, chunk@).1,
    {
        let v = text::chars_of(chunk);
        let mut i: usize = 0;
        let ghost st0 = self@;
        let ghost out0 = out@;
        proof {
            assert(chunk@.take(0) =~= Seq::<char>::empty());
            assert(cmds(out0) + Seq::<CmdV>::empty() =~= cmds(out0));
        }
        while i < v.len()
            invariant
                i <= v@.len(),
                v@ == chunk@,
                self@ == lexed(st0, chunk@.take(i as int)).0,
                cmds(out@) == cmds(out0) + lexed(st0, chunk@.take(i as int)).1,
            decreases v@.len() - i,
        {
            proof {
                assert(chunk@.take(i + 1).drop_last() =~= chunk@.take(i as int));
                assert(chunk@.take(i + 1).last() == chunk@[i as int]);
            }
            let ghost now = lexed(st0, chunk@.take(i as int));
            let ghost step = lexed_char(now.0, chunk@[i as int]);
            if v[i] == '\n' {
                let line = text::trim_end_run(&self.buf, '\r');
                self.buf = String::new();
                self.line(&line, out);
            } else {
                self.buf.push(v[i]);
            }
            proof {
                assert(cmds(out@) =~= cmds(out0) + (now.1 + step.1));
            }
            i += 1;
        }
        assert(chunk@.take(chunk@.len() as int) =~= chunk@);
    }

    /// Flush at end of stream: a trailing line without newline still counts,
    /// and an unterminated payload is applied as-is (model ran out of tokens).
    pub fn finish(&mut self, out: &mut Vec<Cmd>)
        ensures
            final(self)@ == lexed_end(old(self)@).0,
            cmds(final(out)@) == cmds(old(out)@) + lexed_end(old(self)@).1,
    {
        let ghost out0 = out@;
        let ghost st0 = self@;
        if !text::empty(&self.buf) {
            let line = text::trim_end_run(&self.buf, '\r');
            self.buf = String::new();
            self.line(&line, out);
        }
        let ghost first = if st0.buf.len() > 0 {
            lexed_line(LexV { buf: Seq::empty(), ..st0 }, without_tail_run(st0.buf, '\r')).1
        } else {
            Seq::empty()
        };
        let ghost mid = self@;
        let ghost out1 = out@;
        assert(cmds(out1) =~= cmds(out0) + first);
        if let Some((p, body)) = self.pending.take() {
            let c = close_payload(p, body);
            proof {
                lemma_cmds_push(out1, c);
            }
            out.push(c);
        }
        let ghost closing: Seq<CmdV> = match mid.pending {
            Some((p, body)) => seq![closed_with(p, body)],
            None => Seq::empty(),
        };
        let ghost out2 = out@;
        assert(cmds(out2) =~= cmds(out0) + (first + closing));
        if let Some(msg) = self.done_msg.take() {
            let c = Cmd::Done { msg: text::trim(&msg) };
            proof {
                lemma_cmds_push(out2, c);
            }
            out.push(c);
        }
        assert(cmds(out@) =~= cmds(out0) + lexed_end(st0).1);
    }

    fn line(&mut self, line: &str, out: &mut Vec<Cmd>)
        ensures
            final(self)@ == lexed_line(old(self)@, line@).0,
            cmds(final(out)@) == cmds(old(out)@) + lexed_line(old(self)@, line@).1,
    {
        let ghost out0 = out@;
        proof {
            reveal_strlit(".");
            assert("."@ =~= seq!['.']);
            assert(cmds(out0) + Seq::<CmdV>::empty() =~= cmds(out0));
        }
        if let Some(msg) = self.done_msg.take() {
            let mut m = msg;
            m.append("\n");
            m.append(line);
            self.done_msg = Some(m);
            return ;
        }
        if let Some((p, body)) = self.pending.take() {
            if text::same(line, ".") {
                let c = close_payload(p, body);
                proof {
                    lemma_cmds_push(out0, c);
                }
                out.push(c);
            } else {
                let mut body = body;
                let ghost body0 = body@;
                let stored = match text::strip_prefix(line, ".") {
                    Some(rest) => rest,
                    None => line.to_owned(),
                };
                proof {
                    if line@.len() > 0 && line@[0] == '.' {
                        assert(line@.subrange(0, 1) =~= "."@);
                    } else if line@.len() > 0 {
                        assert(line@.subrange(0, 1)[0] != '.');
                    }
                    text::lemma_texts_push(body0, stored);
                }
                body.push(stored);
                self.pending = Some((p, body));
            }
            return ;
        }
        let line = text::trim_start(line);
        if text::empty(&line) {
            return ;
        }
        if self.cc_json {
            if let Some(found) = act_on_cc_line(&line) {
                if let Some(c) = found {
                    proof {
                        lemma_cmds_push(out0, c);
                    }
                    out.push(c);
                }
                return ;
            }
        }
        match act_on_line(&line) {
            Act::Emit(c) => {
                proof {
                    lemma_cmds_push(out0, c);
                }
                out.push(c);
            },
            Act::Open(p) => {
                let body: Vec<String> = Vec::new();
                assert(texts(body@) =~= Seq::<Seq<char>>::empty());
                self.pending = Some((p, body));
            },
            Act::Finish(m) => {
                self.done_msg = Some(m);
            },
            Act::Nothing => {},
            Act::Prose => {
                if self.dropped < usize::MAX {
                    self.dropped = self.dropped + 1;
                }
                self.dropped_text.append(&line);
                self.dropped_text.append("\n");
            },
        }
    }
}

// ---------------------------------------------------------------------------
// Laws
// ---------------------------------------------------------------------------

/// How the stream is cut into chunks makes no difference: feeding `a` and then
/// `b` leaves the same state, and completes the same commands in the same
/// order, as feeding both at once.
pub proof fn chunking_is_invisible(st: LexV, a: Seq<char>, b: Seq<char>)
    ensures
        lexed(st, a + b).0 == lexed(lexed(st, a).0, b).0,
        lexed(st, a + b).1 == lexed(st, a).1 + lexed(lexed(st, a).0, b).1,
    decreases b.len(),
{
    if b.len() == 0 {
        assert(a + b =~= a);
        assert(lexed(st, a).1 + Seq::<CmdV>::empty() =~= lexed(st, a).1);
    } else {
        chunking_is_invisible(st, a, b.drop_last());
        assert((a + b).drop_last() =~= a + b.drop_last());
        assert((a + b).last() == b.last());
        let mid = lexed(lexed(st, a).0, b.drop_last());
        let step = lexed_char(mid.0, b.last());
        assert((lexed(st, a).1 + mid.1) + step.1 =~= lexed(st, a).1 + (mid.1 + step.1));
    }
}

/// Commands already completed are never taken back: what a longer stream
/// yields begins with what its start yielded.
pub proof fn completed_commands_stand(st: LexV, a: Seq<char>, b: Seq<char>)
    ensures
        lexed(st, a).1.is_prefix_of(lexed(st, a + b).1),
{
    chunking_is_invisible(st, a, b);
}

/// Outside the JSON dialect no input yields a search-and-replace command, and
/// the dialect of a lexer never changes.
pub proof fn native_lexer_never_replaces(st: LexV, s: Seq<char>)
    requires
        !st.cc,
    ensures
        !lexed(st, s).0.cc,
        forall|i: int| 0 <= i < lexed(st, s).1.len() ==> !(#[trigger] lexed(st, s).1[i] is Replace),
        forall|i: int|
            0 <= i < lexed_end(lexed(st, s).0).1.len() ==> !(
            #[trigger] lexed_end(lexed(st, s).0).1[i] is Replace),
    decreases s.len(),
{
    if s.len() > 0 {
        native_lexer_never_replaces(st, s.drop_last());
    }
}

/// A payload line as it must be written: one more dot before a leading dot.
pub open spec fn escaped(line: Seq<char>) -> Seq<char> {
    if line.len() > 0 && line[0] == '.' {
        seq!['.'] + line
    } else {
        line
    }
}

/// The text of a payload: each line escaped, then a lone dot.
pub open spec fn payload_text(body: Seq<Seq<char>>) -> Seq<char>
    decreases body.len(),
{
    if body.len() == 0 {
        seq!['.', '\n']
    } else {
        escaped(body[0]) + seq!['\n'] + payload_text(body.drop_first())
    }
}

/// Whether a text can be one line of a payload.
pub open spec fn is_line(line: Seq<char>) -> bool {
    &&& !line.contains('\n')
    &&& line.len() > 0 ==> line.last() != '\r'
}

proof fn lemma_lexed_plain(st: LexV, s: Seq<char>)
    requires
        !s.contains('\n'),
    ensures
        lexed(st, s) == (LexV { buf: st.buf + s, ..st }, Seq::<CmdV>::empty()),
    decreases s.len(),
{
    if s.len() == 0 {
        assert(st.buf + s =~= st.buf);
    } else {
        assert forall|i: int| 0 <= i < s.drop_last().len() implies s.drop_last()[i] != '\n' by {
            assert(s[i] != '\n');
        }
        lemma_lexed_plain(st, s.drop_last());
        assert(s.last() != '\n');
        assert((st.buf + s.drop_last()).push(s.last()) =~= st.buf + s);
        assert(Seq::<CmdV>::empty() + Seq::<CmdV>::empty() =~= Seq::<CmdV>::empty());
    }
}

proof fn lemma_lexed_whole_line(st: LexV, line: Seq<char>)
    requires
        st.buf.len() == 0,
        is_line(line),
    ensures
        lexed(st, line + seq!['\n']) == lexed_line(st, line),
{
    lemma_lexed_plain(st, line);
    assert((line + seq!['\n']).drop_last() =~= line);
    assert(st.buf + line =~= line);
    assert(without_tail_run(line, '\r') =~= line);
    assert(LexV { buf: Seq::empty(), ..st } =~= st);
    let step = lexed_line(st, line);
    assert(Seq::<CmdV>::empty() + step.1 =~= step.1);
}

/// Every list of lines can be sent as a payload: written with its escapes and
/// closed by a lone dot, it arrives line for line, whatever the lines hold.
pub proof fn payload_arrives_intact(st: LexV, body: Seq<Seq<char>>)
    requires
        st.buf.len() == 0,
        st.done is None,
        st.pending is Some,
        forall|i: int| 0 <= i < body.len() ==> is_line(#[trigger] body[i]),
    ensures
        lexed(st, payload_text(body)) == (
            LexV { pending: None, ..st },
            seq![closed_with((st.pending->0).0, (st.pending->0).1 + body)],
        ),
    decreases body.len(),
{
    reveal_strlit(".");
    assert("."@ =~= seq!['.']);
    let (p, sofar) = st.pending->0;
    if body.len() == 0 {
        assert(seq!['.', '\n'] =~= seq!['.'] + seq!['\n']);
        lemma_lexed_whole_line(st, seq!['.']);
        assert(sofar + body =~= sofar);
    } else {
        let first = body[0];
        let rest = body.drop_first();
        let e = escaped(first);
        assert(is_line(e)) by {
            assert forall|i: int| 0 <= i < e.len() implies e[i] != '\n' by {
                if e.len() == first.len() {
                    assert(first[i] != '\n');
                } else if i > 0 {
                    assert(first[i - 1] != '\n');
                }
            }
        }
        assert(payload_line(e) =~= first);
        assert(e != seq!['.']) by {
            if e.len() == 1 {
                assert(e == first);
            }
        }
        let next = LexV { pending: Some((p, sofar.push(first))), ..st };
        lemma_lexed_whole_line(st, e);
        assert(lexed(st, e + seq!['\n']) == (next, Seq::<CmdV>::empty()));
        payload_arrives_intact(next, rest);
        chunking_is_invisible(st, e + seq!['\n'], payload_text(rest));
        assert(sofar.push(first) + rest =~= sofar + body);
        assert(Seq::<CmdV>::empty() + lexed(next, payload_text(rest)).1 =~= lexed(
            next,
            payload_text(rest),
        ).1);
        assert(LexV { pending: None, ..next } =~= LexV { pending: None, ..st });
    }
}

/// Whether a text can stand as the arguments of a verb: on one line, with no
/// white space at its ends.
pub open spec fn is_phrase(s: Seq<char>) -> bool {
    &&& s.len() > 0
    &&& !s.contains('\n')
    &&& !is_space(s[0])
    &&& !is_space(s.last())
}

/// Whether a text can stand as one argument.
pub open spec fn is_word(s: Seq<char>) -> bool {
    is_phrase(s) && !s.contains(' ')
}

/// Whether a lexer is between two commands.
pub open spec fn at_rest(st: LexV) -> bool {
    st.buf.len() == 0 && st.pending is None && st.done is None && !st.cc
}

proof fn lemma_phrase(s: Seq<char>)
    requires
        is_phrase(s),
    ensures
        trimmed(s) == s,
        trimmed_start(s) == s,
        is_line(s),
{
    assert(s.skip(0) =~= s);
    assert(s.take(s.len() as int) =~= s);
}

proof fn lemma_two_words(p: Seq<char>, t: Seq<char>)
    requires
        !p.contains(' '),
    ensures
        head(p + seq![' '] + t, ' ') == p,
        tail(p + seq![' '] + t, ' ') == t,
        head(p, ' ') == p,
        tail(p, ' ') == Seq::<char>::empty(),
{
    let s = p + seq![' '] + t;
    text::lemma_upto(s, ' ', 0);
    text::lemma_upto(p, ' ', 0);
    let j = text::upto(s, ' ', 0);
    assert(s[p.len() as int] == ' ');
    if j < p.len() {
        assert(s[j] == p[j]);
        assert(p.contains(' '));
    }
    assert(s.take(j) =~= p);
    assert(s.skip(j + 1) =~= t);
    let k = text::upto(p, ' ', 0);
    if k < p.len() {
        assert(p.contains(' '));
    }
    assert(p.take(k) =~= p);
}

proof fn lemma_phrase_of(a: Seq<char>, b: Seq<char>)
    requires
        is_phrase(a),
        is_phrase(b),
    ensures
        is_phrase(a + seq![' '] + b),
{
    let s = a + seq![' '] + b;
    assert forall|i: int| 0 <= i < s.len() implies s[i] != '\n' by {
        if i < a.len() {
            assert(s[i] == a[i]);
        } else if i > a.len() {
            assert(s[i] == b[i - a.len() - 1]);
        }
    }
    assert(s[0] == a[0]);
    assert(s.last() == b.last());
}

proof fn lemma_verb_line(st: LexV, v: char, rest: Seq<char>)
    requires
        at_rest(st),
        is_upper(v),
        is_phrase(rest),
    ensures
        lexed(st, seq![v, ' '] + rest + seq!['\n']) == (match act_of(v, rest) {
            ActV::Emit(c) => (st, seq![c]),
            ActV::Open(p) => (
                LexV { pending: Some((p, Seq::empty())), ..st },
                Seq::<CmdV>::empty(),
            ),
            ActV::Finish(m) => (LexV { done: Some(m), ..st }, Seq::<CmdV>::empty()),
            ActV::Nothing => (st, Seq::<CmdV>::empty()),
            ActV::Prose => (
                with_dropped(st, seq![v, ' '] + rest),
                Seq::<CmdV>::empty(),
            ),
        }),
{
    let line = seq![v, ' '] + rest;
    lemma_phrase(rest);
    assert(line =~= seq![v] + seq![' '] + rest);
    lemma_two_words(seq![v], rest);
    assert(is_phrase(line)) by {
        assert forall|i: int| 0 <= i < line.len() implies line[i] != '\n' by {
            if i >= 2 {
                assert(line[i] == rest[i - 2]);
            }
        }
        assert(line.last() == rest.last());
    }
    lemma_phrase(line);
    lemma_lexed_whole_line(st, line);
}

proof fn lemma_bare_verb(st: LexV, v: char)
    requires
        at_rest(st),
        is_upper(v),
    ensures
        line_act(seq![v]) == act_of(v, Seq::empty()),
        lexed(st, seq![v, '\n']) == lexed_line(st, seq![v]),
        trimmed_start(seq![v]) == seq![v],
{
    let line = seq![v];
    lemma_phrase(line);
    lemma_two_words(line, Seq::empty());
    assert(trimmed(Seq::<char>::empty()) =~= Seq::<char>::empty());
    lemma_lexed_whole_line(st, line);
    assert(seq![v, '\n'] =~= line + seq!['\n']);
}

proof fn lemma_opened(st: LexV, line: Seq<char>, p: PendV, body: Seq<Seq<char>>)
    requires
        at_rest(st),
        lexed(st, line) == (
            LexV { pending: Some((p, Seq::empty())), ..st },
            Seq::<CmdV>::empty(),
        ),
        forall|i: int| 0 <= i < body.len() ==> is_line(#[trigger] body[i]),
    ensures
        lexed(st, line + payload_text(body)) == (st, seq![closed_with(p, body)]),
{
    let open = LexV { pending: Some((p, Seq::empty())), ..st };
    payload_arrives_intact(open, body);
    chunking_is_invisible(st, line, payload_text(body));
    assert(Seq::<Seq<char>>::empty() + body =~= body);
    assert(Seq::<CmdV>::empty() + seq![closed_with(p, body)] =~= seq![closed_with(p, body)]);
    assert(LexV { pending: None, ..open } =~= st);
}

proof fn lemma_number_word(n: nat)
    ensures
        is_word(decimal(n)),
        !decimal(n).contains(':'),
        parsed_upto(decimal(n), usize::MAX as nat) == (if n <= usize::MAX {
            Some(n)
        } else {
            None
        }),
{
    text::lemma_decimal(n);
    text::decimal_reads_back(n);
    let d = decimal(n);
    assert forall|i: int| 0 <= i < d.len() implies d[i] != ' ' && d[i] != '\n' && d[i] != ':' by {
        assert(text::is_digit(d[i]));
    }
    assert(text::is_digit(d[0]));
    assert(text::is_digit(d.last()));
}

proof fn lemma_range_word(a: usize, b: usize)
    ensures
        is_word(decimal(a as nat) + seq![':'] + decimal(b as nat)),
        range_in(decimal(a as nat) + seq![':'] + decimal(b as nat)) == Some((a, b)),
{
    let x = decimal(a as nat);
    let y = decimal(b as nat);
    let s = x + seq![':'] + y;
    lemma_number_word(a as nat);
    lemma_number_word(b as nat);
    assert forall|i: int| 0 <= i < s.len() implies s[i] != '\n' && s[i] != ' ' by {
        if i < x.len() {
            assert(s[i] == x[i]);
        } else if i > x.len() {
            assert(s[i] == y[i - x.len() - 1]);
        }
    }
    assert(s[0] == x[0]);
    assert(s.last() == y.last());
    lemma_phrase(s);
    text::lemma_upto(s, ':', 0);
    let j = text::upto(s, ':', 0);
    assert(s[x.len() as int] == ':');
    if j < x.len() {
        assert(s[j] == x[j]);
        assert(x.contains(':'));
    }
    assert(s.take(j) =~= x);
    assert(s.skip(j + 1) =~= y);
}

/// `R target` reads a whole file, `R target a:b` its lines from `a` to `b`.
pub proof fn a_read_is_read(st: LexV, target: Seq<char>, a: usize, b: usize)
    requires
        at_rest(st),
        is_word(target),
    ensures
        lexed(st, seq!['R', ' '] + target + seq!['\n']) == (
            st,
            seq![CmdV::Read { target, range: None }],
        ),
        lexed(
            st,
            seq!['R', ' '] + (target + seq![' '] + (decimal(a as nat) + seq![':'] + decimal(
                b as nat,
            ))) + seq!['\n'],
        ) == (st, seq![CmdV::Read { target, range: Some((a, b)) }]),
{
    let range = decimal(a as nat) + seq![':'] + decimal(b as nat);
    lemma_range_word(a, b);
    lemma_two_words(target, range);
    lemma_phrase_of(target, range);
    lemma_verb_line(st, 'R', target);
    lemma_verb_line(st, 'R', target + seq![' '] + range);
    let none = Seq::<char>::empty();
    assert(trimmed(none) =~= none);
    assert(range_in(none) is None);
}

/// `E target a:b` with a payload replaces the lines from `a` to `b` by exactly
/// the payload's lines.
pub proof fn an_edit_is_read(
    st: LexV,
    target: Seq<char>,
    a: usize,
    b: usize,
    body: Seq<Seq<char>>,
)
    requires
        at_rest(st),
        is_word(target),
        forall|i: int| 0 <= i < body.len() ==> is_line(#[trigger] body[i]),
    ensures
        lexed(
            st,
            seq!['E', ' '] + (target + seq![' '] + (decimal(a as nat) + seq![':'] + decimal(
                b as nat,
            ))) + seq!['\n'] + payload_text(body),
        ) == (st, seq![CmdV::Edit { target, a, b, body: joined(body, "\n"@) }]),
{
    let range = decimal(a as nat) + seq![':'] + decimal(b as nat);
    lemma_range_word(a, b);
    lemma_two_words(target, range);
    lemma_phrase_of(target, range);
    lemma_verb_line(st, 'E', target + seq![' '] + range);
    lemma_opened(
        st,
        seq!['E', ' '] + (target + seq![' '] + range) + seq!['\n'],
        PendV::Edit { target, a, b },
        body,
    );
}

/// `I target n` with a payload inserts exactly the payload's lines after line
/// `n`.
pub proof fn an_insertion_is_read(st: LexV, target: Seq<char>, after: usize, body: Seq<Seq<char>>)
    requires
        at_rest(st),
        is_word(target),
        forall|i: int| 0 <= i < body.len() ==> is_line(#[trigger] body[i]),
    ensures
        lexed(
            st,
            seq!['I', ' '] + (target + seq![' '] + decimal(after as nat)) + seq!['\n']
                + payload_text(body),
        ) == (st, seq![CmdV::Insert { target, after, body: joined(body, "\n"@) }]),
{
    let n = decimal(after as nat);
    lemma_number_word(after as nat);
    lemma_phrase(n);
    lemma_two_words(target, n);
    lemma_phrase_of(target, n);
    lemma_verb_line(st, 'I', target + seq![' '] + n);
    lemma_opened(
        st,
        seq!['I', ' '] + (target + seq![' '] + n) + seq!['\n'],
        PendV::Insert { target, after },
        body,
    );
}

/// `N path` with a payload creates a file of exactly the payload's lines; the
/// path is the whole rest of the line.
pub proof fn a_new_file_is_read(st: LexV, path: Seq<char>, body: Seq<Seq<char>>)
    requires
        at_rest(st),
        is_phrase(path),
        forall|i: int| 0 <= i < body.len() ==> is_line(#[trigger] body[i]),
    ensures
        lexed(st, seq!['N', ' '] + path + seq!['\n'] + payload_text(body)) == (
            st,
            seq![CmdV::New { path, body: joined(body, "\n"@) }],
        ),
{
    lemma_verb_line(st, 'N', path);
    lemma_opened(st, seq!['N', ' '] + path + seq!['\n'], PendV::New { path }, body);
}

/// `G pattern` searches everywhere and `G pattern target` in the target; a
/// pattern in quotes may hold spaces.
pub proof fn a_search_is_read(
    st: LexV,
    word: Seq<char>,
    quoted: Seq<char>,
    target: Seq<char>,
)
    requires
        at_rest(st),
        is_word(word),
        word[0] != '"',
        quoted.len() > 0,
        !quoted.contains('"'),
        !quoted.contains('\n'),
        is_phrase(target),
    ensures
        lexed(st, seq!['G', ' '] + word + seq!['\n']) == (
            st,
            seq![CmdV::Grep { pat: word, target: None }],
        ),
        lexed(st, seq!['G', ' '] + (word + seq![' '] + target) + seq!['\n']) == (
            st,
            seq![CmdV::Grep { pat: word, target: Some(target) }],
        ),
        lexed(st, seq!['G', ' '] + (seq!['"'] + quoted + seq!['"']) + seq!['\n']) == (
            st,
            seq![CmdV::Grep { pat: quoted, target: None }],
        ),
        lexed(
            st,
            seq!['G', ' '] + ((seq!['"'] + quoted + seq!['"']) + seq![' '] + target) + seq!['\n'],
        ) == (st, seq![CmdV::Grep { pat: quoted, target: Some(target) }]),
{
    let none = Seq::<char>::empty();
    assert(trimmed(none) =~= none);
    lemma_phrase(target);
    lemma_two_words(word, target);
    lemma_phrase_of(word, target);
    lemma_verb_line(st, 'G', word);
    assert((word + seq![' '] + target)[0] == word[0]);
    lemma_verb_line(st, 'G', word + seq![' '] + target);
    let q = seq!['"'] + quoted + seq!['"'];
    assert(is_phrase(q)) by {
        assert forall|i: int| 0 <= i < q.len() implies q[i] != '\n' by {
            if 0 < i < q.len() - 1 {
                assert(q[i] == quoted[i - 1]);
            }
        }
    }
    lemma_phrase_of(q, target);
    lemma_quoted(quoted, none);
    lemma_quoted(quoted, seq![' '] + target);
    assert(q + none =~= q);
    assert(q + seq![' '] + target =~= q + (seq![' '] + target));
    assert(trimmed(seq![' '] + target) == target) by {
        let s = seq![' '] + target;
        assert(text::skip_space(s, 1) == 1);
        assert(text::skip_space(s, 0) == 1);
        assert(s.skip(1) =~= target);
        assert(target.take(target.len() as int) =~= target);
    }
    lemma_verb_line(st, 'G', q);
    lemma_verb_line(st, 'G', q + seq![' '] + target);
}

proof fn lemma_quoted(quoted: Seq<char>, after: Seq<char>)
    requires
        !quoted.contains('"'),
    ensures
        cut((seq!['"'] + quoted + seq!['"'] + after).skip(1), '"') == Some((quoted, after)),
{
    let s = (seq!['"'] + quoted + seq!['"'] + after).skip(1);
    assert(s =~= quoted + seq!['"'] + after);
    text::lemma_upto(s, '"', 0);
    let j = text::upto(s, '"', 0);
    assert(s[quoted.len() as int] == '"');
    if j < quoted.len() {
        assert(s[j] == quoted[j]);
        assert(quoted.contains('"'));
    }
    assert(s.take(j) =~= quoted);
    assert(s.skip(j + 1) =~= after);
}

/// `X line` runs the rest of the line, `X <<` the lines of a payload; `S line`
/// and `S <<` say them.
pub proof fn what_runs_and_what_is_said(st: LexV, line: Seq<char>, body: Seq<Seq<char>>)
    requires
        at_rest(st),
        is_phrase(line),
        line != seq!['<', '<'],
        forall|i: int| 0 <= i < body.len() ==> is_line(#[trigger] body[i]),
    ensures
        lexed(st, seq!['X', ' '] + line + seq!['\n']) == (st, seq![CmdV::Exec { line }]),
        lexed(st, seq!['S', ' '] + line + seq!['\n']) == (st, seq![CmdV::Say { text: line }]),
        lexed(st, seq!['X', ' '] + seq!['<', '<'] + seq!['\n'] + payload_text(body)) == (
            st,
            seq![CmdV::Exec { line: joined(body, "\n"@) }],
        ),
        lexed(st, seq!['S', ' '] + seq!['<', '<'] + seq!['\n'] + payload_text(body)) == (
            st,
            seq![CmdV::Say { text: joined(body, "\n"@) }],
        ),
{
    reveal_strlit("<<");
    let two = seq!['<', '<'];
    assert("<<"@ =~= two);
    assert(is_phrase(two)) by {
        assert forall|i: int| 0 <= i < two.len() implies two[i] != '\n' by {}
    }
    lemma_verb_line(st, 'X', line);
    lemma_verb_line(st, 'S', line);
    lemma_verb_line(st, 'X', two);
    lemma_verb_line(st, 'S', two);
    lemma_opened(st, seq!['X', ' '] + two + seq!['\n'], PendV::Exec, body);
    lemma_opened(st, seq!['S', ' '] + two + seq!['\n'], PendV::Say, body);
}

/// `A profile task` starts a subagent, `P id status` moves a plan step: the
/// first word is the name, the rest is the other argument.
pub proof fn a_name_and_the_rest(st: LexV, name: Seq<char>, rest: Seq<char>)
    requires
        at_rest(st),
        is_word(name),
        is_phrase(rest),
    ensures
        lexed(st, seq!['A', ' '] + (name + seq![' '] + rest) + seq!['\n']) == (
            st,
            seq![CmdV::Agent { profile: name, task: rest }],
        ),
        lexed(st, seq!['P', ' '] + (name + seq![' '] + rest) + seq!['\n']) == (
            st,
            seq![CmdV::PlanStep { id: name, status: rest }],
        ),
        lexed(st, seq!['A', ' '] + name + seq!['\n']) == (st, Seq::<CmdV>::empty()),
        lexed(st, seq!['P', ' '] + name + seq!['\n']) == (st, Seq::<CmdV>::empty()),
{
    let none = Seq::<char>::empty();
    assert(trimmed(none) =~= none);
    lemma_phrase(rest);
    lemma_two_words(name, rest);
    lemma_phrase_of(name, rest);
    lemma_verb_line(st, 'A', name + seq![' '] + rest);
    lemma_verb_line(st, 'P', name + seq![' '] + rest);
    lemma_verb_line(st, 'A', name);
    lemma_verb_line(st, 'P', name);
}

/// `V`, `O` and `B` take the whole rest of the line, and so does every other
/// letter, which is then a configured tool's.
pub proof fn the_rest_is_one_argument(st: LexV, rest: Seq<char>, v: char)
    requires
        at_rest(st),
        is_phrase(rest),
        'A' <= v <= 'Z',
    ensures
        lexed(st, seq!['V', ' '] + rest + seq!['\n']) == (st, seq![CmdV::View { target: rest }]),
        lexed(st, seq!['O', ' '] + rest + seq!['\n']) == (st, seq![CmdV::Outline { target: rest }]),
        lexed(st, seq!['O', '\n']) == (st, seq![CmdV::Outline { target: Seq::empty() }]),
        lexed(st, seq!['B', ' '] + rest + seq!['\n']) == (st, seq![CmdV::Think { why: rest }]),
        !seq!['R', 'E', 'I', 'N', 'G', 'X', 'A', 'P', 'B', 'V', 'S', 'O', 'D'].contains(v)
            ==> lexed(st, seq![v, ' '] + rest + seq!['\n']) == (
            st,
            seq![CmdV::Custom { verb: v, args: rest }],
        ),
{
    lemma_verb_line(st, 'V', rest);
    lemma_verb_line(st, 'O', rest);
    lemma_verb_line(st, 'B', rest);
    lemma_bare_verb(st, 'O');
    lemma_verb_line(st, v, rest);
    let natives = seq!['R', 'E', 'I', 'N', 'G', 'X', 'A', 'P', 'B', 'V', 'S', 'O', 'D'];
    if !natives.contains(v) {
        assert(natives[0] == 'R' && natives[1] == 'E' && natives[2] == 'I' && natives[3] == 'N'
            && natives[4] == 'G' && natives[5] == 'X' && natives[6] == 'A' && natives[7] == 'P'
            && natives[8] == 'B' && natives[9] == 'V' && natives[10] == 'S' && natives[11] == 'O'
            && natives[12] == 'D');
    }
}

/// `D message` comes out only at the end of the stream, as its last command; the
/// lines after it belong to the message, and none of them is a command.
pub proof fn the_final_message_is_the_rest(st: LexV, msg: Seq<char>, more: Seq<char>)
    requires
        at_rest(st),
        is_phrase(msg),
        is_phrase(more),
    ensures
        ({
            let one = lexed(st, seq!['D', ' '] + msg + seq!['\n']);
            let two = lexed(one.0, more + seq!['\n']);
            &&& one.1 == Seq::<CmdV>::empty()
            &&& two.1 == Seq::<CmdV>::empty()
            &&& lexed_end(one.0).1 == seq![CmdV::Done { msg }]
            &&& lexed_end(two.0).1 == seq![CmdV::Done { msg: msg + seq!['\n'] + more }]
        }),
{
    reveal_strlit("\n");
    assert("\n"@ =~= seq!['\n']);
    lemma_verb_line(st, 'D', msg);
    let one = LexV { done: Some(msg), ..st };
    lemma_phrase(more);
    lemma_phrase(msg);
    lemma_lexed_whole_line(one, more);
    let all = msg + seq!['\n'] + more;
    assert(trimmed(all) == all) by {
        assert(all[0] == msg[0]);
        assert(all.last() == more.last());
        assert(all.skip(0) =~= all);
        assert(all.take(all.len() as int) =~= all);
    }
    let none = Seq::<CmdV>::empty();
    assert(none + none + seq![CmdV::Done { msg }] =~= seq![CmdV::Done { msg }]);
    assert(none + none + seq![CmdV::Done { msg: all }] =~= seq![CmdV::Done { msg: all }]);
}

/// Prose is no command: a line that does not begin with a verb is dropped, and
/// counted, and kept aside as it was.
pub proof fn prose_is_set_aside(st: LexV, line: Seq<char>)
    requires
        at_rest(st),
        is_phrase(line),
        st.dropped < usize::MAX,
        !('A' <= line[0] <= 'Z') || (line.len() > 1 && line[1] != ' '),
    ensures
        lexed(st, line + seq!['\n']) == (
            LexV {
                dropped: st.dropped + 1,
                dropped_text: st.dropped_text + line + seq!['\n'],
                ..st
            },
            Seq::<CmdV>::empty(),
        ),
{
    reveal_strlit("\n");
    assert("\n"@ =~= seq!['\n']);
    lemma_phrase(line);
    lemma_lexed_whole_line(st, line);
    text::lemma_upto(line, ' ', 0);
    let j = text::upto(line, ' ', 0);
    if j == 1 {
        assert(line.take(1)[0] == line[0]);
    }
    if line.len() == 1 {
        assert(line.take(1)[0] == line[0]);
    }
}

/// An open payload that the stream cuts off is closed as it is: its lines so
/// far, and a last line without its end, all count.
pub proof fn a_cut_payload_is_kept(st: LexV, last: Seq<char>)
    requires
        st.pending is Some,
        st.done is None,
        st.buf.len() == 0,
        is_line(last),
        last.len() > 0,
        last[0] != '.',
    ensures
        lexed_end(st).1 == seq![closed_with((st.pending->0).0, (st.pending->0).1)],
        lexed_end(lexed(st, last).0).1 == seq![
            closed_with((st.pending->0).0, (st.pending->0).1.push(last)),
        ],
{
    reveal_strlit(".");
    lemma_lexed_plain(st, last);
    assert(st.buf + last =~= last);
    assert(without_tail_run(last, '\r') =~= last);
    let (p, body) = st.pending->0;
    let none = Seq::<CmdV>::empty();
    assert(none + seq![closed_with(p, body)] + none =~= seq![closed_with(p, body)]);
    let mid = LexV { pending: Some((p, body.push(last))), ..st };
    let at = LexV { buf: last, ..st };
    assert(LexV { buf: Seq::empty(), ..at } =~= st);
    assert("."@[0] == '.');
    assert(lexed_line(st, last) == (mid, none));
    assert(none + seq![closed_with(p, body.push(last))] + none =~= seq![
        closed_with(p, body.push(last)),
    ]);
}

/// A line that ends in carriage returns is the line without them.
pub proof fn carriage_returns_do_not_count(st: LexV, line: Seq<char>, ends: Seq<char>)
    requires
        st.buf.len() == 0,
        is_line(line),
        forall|k: int| 0 <= k < ends.len() ==> ends[k] == '\r',
    ensures
        lexed(st, line + ends + seq!['\n']) == lexed(st, line + seq!['\n']),
{
    let s = line + ends;
    assert forall|i: int| 0 <= i < s.len() implies s[i] != '\n' by {
        if i < line.len() {
            assert(s[i] == line[i]);
        } else {
            assert(s[i] == ends[i - line.len()]);
        }
    }
    lemma_lexed_plain(st, s);
    assert((s + seq!['\n']).drop_last() =~= s);
    assert(st.buf + s =~= s);
    assert(without_tail_run(s, '\r') == line) by {
        if line.len() > 0 {
            text::lemma_tail_run(line, ends, '\r');
        } else {
            text::lemma_all_dropped(ends, '\r');
            assert(s =~= ends);
        }
    }
    lemma_lexed_whole_line(st, line);
    assert(LexV { buf: Seq::empty(), ..st } =~= st);
    let step = lexed_line(st, line);
    assert(Seq::<CmdV>::empty() + step.1 =~= step.1);
}

/// The lines that a tool call reads: as many as its limit, from its offset on; to
/// the end of any file where it gives no limit, and all where it gives no offset.
pub proof fn a_call_reads_the_lines_asked_for(offset: u64, limit: u64, o: Option<u64>)
    requires
        limit > 0,
        offset + limit <= usize::MAX,
    ensures
        ({
            let w = window_of(Some(offset), Some(limit));
            let (a, b) = w->0;
            w is Some && a == offset && b - a + 1 == limit
        }),
        ({
            let w = window_of(Some(offset), None);
            let (a, b) = w->0;
            w is Some && a == offset && b >= 0x7FFF_FFFF
        }),
        window_of(None, o) is None,
{
}

/// A tool call is the command that does the same, with the same arguments; either
/// name of the path will do.
pub proof fn tool_calls_are_commands(
    a: ArgsV,
    line: Seq<char>,
    file: Seq<char>,
    x: Seq<char>,
    y: Seq<char>,
)
    ensures
        mapped("Bash"@, ArgsV { command: Some(line), ..a }) == Some(CmdV::Exec { line }),
        mapped("Read"@, ArgsV { file_path: Some(file), offset: None, ..a }) == Some(
            CmdV::Read { target: file, range: None },
        ),
        mapped("Read"@, ArgsV { file_path: None, path: Some(file), offset: None, ..a }) == Some(
            CmdV::Read { target: file, range: None },
        ),
        mapped("Write"@, ArgsV { file_path: Some(file), content: Some(x), ..a }) == Some(
            CmdV::New { path: file, body: x },
        ),
        mapped(
            "Edit"@,
            ArgsV { file_path: Some(file), old_string: Some(x), new_string: Some(y), ..a },
        ) == Some(CmdV::Replace { target: file, old: x, new: y }),
        mapped("Grep"@, ArgsV { pattern: Some(x), path: Some(file), ..a }) == Some(
            CmdV::Grep { pat: x, target: Some(file) },
        ),
        mapped("Glob"@, ArgsV { pattern: Some(x), path: None, ..a }) == Some(
            CmdV::Grep { pat: x, target: None },
        ),
        mapped("Task"@, ArgsV { prompt: Some(x), ..a }) == Some(
            CmdV::Agent { profile: "researcher"@, task: x },
        ),
{
    reveal_strlit("Bash");
    reveal_strlit("Read");
    reveal_strlit("Write");
    reveal_strlit("Edit");
    reveal_strlit("Grep");
    reveal_strlit("Glob");
    reveal_strlit("Task");
    assert("Bash"@[0] == 'B' && "Read"@[0] == 'R' && "Write"@[0] == 'W' && "Edit"@[0] == 'E'
        && "Grep"@[0] == 'G' && "Glob"@[0] == 'G' && "Task"@[0] == 'T');
}

/// A call without the arguments that its tool needs is no command, and neither is
/// one of a tool that is not known.
pub proof fn calls_without_arguments_are_dropped(tool: Seq<char>, a: ArgsV)
    ensures
        a.command is None ==> mapped("Bash"@, a) is None,
        a.file_path is None && a.path is None ==> mapped("Read"@, a) is None && mapped(
            "Write"@,
            a,
        ) is None && mapped("Edit"@, a) is None,
        a.content is None ==> mapped("Write"@, a) is None,
        a.old_string is None || a.new_string is None ==> mapped("Edit"@, a) is None,
        a.pattern is None ==> mapped("Grep"@, a) is None && mapped("Glob"@, a) is None,
        a.prompt is None ==> mapped("Task"@, a) is None,
        tool != "Bash"@ && tool != "Read"@ && tool != "Write"@ && tool != "Edit"@ && tool
            != "Grep"@ && tool != "Glob"@ && tool != "Task"@ ==> mapped(tool, a) is None,
{
    reveal_strlit("Bash");
    reveal_strlit("Read");
    reveal_strlit("Write");
    reveal_strlit("Edit");
    reveal_strlit("Grep");
    reveal_strlit("Glob");
    reveal_strlit("Task");
    assert("Bash"@[0] == 'B' && "Read"@[0] == 'R' && "Write"@[0] == 'W' && "Edit"@[0] == 'E'
        && "Grep"@[0] == 'G' && "Glob"@[0] == 'G' && "Task"@[0] == 'T');
    assert("Grep"@[1] == 'r' && "Glob"@[1] == 'l');
}

/// A line that is a JSON object runs as the call it holds, where that dialect is
/// accepted: the tool by either of its names, with the arguments by either of
/// theirs.
pub proof fn json_lines_are_calls(
    st: LexV,
    line: Seq<char>,
    v: serde_json::Value,
    tool: Seq<char>,
    args: serde_json::Value,
    cmd: CmdV,
)
    requires
        st.cc,
        st.buf.len() == 0,
        st.pending is None,
        st.done is None,
        is_phrase(line),
        line[0] == '{',
        !text::holds(line, " input={"@),
        json_value(line) == Ok::<serde_json::Value, Seq<char>>(v),
        str_member(v, "tool"@) == Some(tool) || (str_member(v, "tool"@) is None && str_member(
            v,
            "name"@,
        ) == Some(tool)),
        (json_is_object(json_member(v, "input"@)) && args == json_member(v, "input"@)) || (
        !json_is_object(json_member(v, "input"@)) && args == json_member(v, "arguments"@)),
        mapped(tool, args_in(args)) == Some(cmd),
    ensures
        lexed(st, line + seq!['\n']) == (st, seq![cmd]),
{
    lemma_phrase(line);
    lemma_lexed_whole_line(st, line);
}

proof fn lemma_word_start(s: Seq<char>, j: int, i: int)
    requires
        0 <= i <= j <= s.len(),
        forall|k: int| i <= k < j ==> s[k] != ' ' && s[k] != ')',
        i > 0 ==> s[i - 1] == ' ' || s[i - 1] == ')',
    ensures
        word_start(s, j) == i,
    decreases j - i,
{
    if i < j {
        lemma_word_start(s, j - 1, i);
    }
}

/// A call in the transcript form runs as well: the word before `input=` is the
/// tool, what follows it are the arguments, and what stands before it is noise.
pub proof fn transcript_lines_are_calls(
    st: LexV,
    noise: Seq<char>,
    tool: Seq<char>,
    input: Seq<char>,
    v: serde_json::Value,
    cmd: CmdV,
)
    requires
        st.cc,
        st.buf.len() == 0,
        st.pending is None,
        st.done is None,
        tool.len() > 0,
        !tool.contains(' '),
        !tool.contains(')'),
        noise.len() > 0 ==> noise.last() == ' ' || noise.last() == ')',
        input.len() > 0,
        input[0] == '{',
        is_phrase(noise + tool + " input="@ + input),
        !text::holds((noise + tool + " input="@ + input).take((noise + tool).len() + 7int), " input={"@),
        json_value(input) == Ok::<serde_json::Value, Seq<char>>(v),
        mapped(tool, args_in(v)) == Some(cmd),
    ensures
        lexed(st, noise + tool + " input="@ + input + seq!['\n']) == (st, seq![cmd]),
{
    reveal_strlit(" input=");
    reveal_strlit(" input={");
    let line = noise + tool + " input="@ + input;
    let n = (noise + tool).len() as int;
    lemma_phrase(line);
    lemma_lexed_whole_line(st, line);
    text::found_where_it_first_stands(line, " input={"@, 0);
    assert(line.skip(n).take(8) =~= " input={"@);
    let cutoff = line.take(n + 7);
    text::found_where_it_first_stands(cutoff, " input={"@, 0);
    let i = text::found_from(line, " input={"@, 0)->0;
    if i < n {
        assert(cutoff.skip(i).take(8) =~= line.skip(i).take(8));
    }
    assert(i == n) by {
        if i > n {
            assert(line.skip(n).take(8) != " input={"@ || n + 8 > line.len());
        }
    }
    let before = line.take(n);
    assert(before =~= noise + tool);
    assert forall|k: int| noise.len() <= k < n implies before[k] != ' ' && before[k] != ')' by {
        assert(before[k] == tool[k - noise.len()]);
        assert(tool.contains(before[k]));
    }
    lemma_word_start(before, n, noise.len() as int);
    assert(before.skip(noise.len() as int) =~= tool);
    assert(line.skip(n + 7) =~= input);
}

/// Where calls in JSON are accepted, every other line means what it means without
/// them.
pub proof fn other_lines_keep_their_meaning(st: LexV, line: Seq<char>)
    requires
        st.buf.len() == 0,
        st.pending is None,
        st.done is None,
        is_phrase(line),
        line[0] != '{',
        !text::holds(line, " input={"@),
    ensures
        lexed(LexV { cc: true, ..st }, line + seq!['\n']).1 == lexed(
            LexV { cc: false, ..st },
            line + seq!['\n'],
        ).1,
{
    lemma_phrase(line);
    lemma_lexed_whole_line(LexV { cc: true, ..st }, line);
    lemma_lexed_whole_line(LexV { cc: false, ..st }, line);
}

} // verus!
