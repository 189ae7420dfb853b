//! What the agent knows before it is asked anything.
//!
//! Orientation an agent would otherwise burn round trips discovering — or
//! worse, guess at: what kind of project this is, how to build and test it,
//! git state, and the shape of the tree. Pinned at ledger head, so in append
//! mode it seals into the cached prefix: paid for once.

use crate::table;
use crate::table::lookup;
use crate::table::put;
use crate::table::sorted_of;
use crate::table::Table;
use crate::text;
use crate::text::byte_len;
use crate::text::decimal;
use crate::text::held_sum;
use crate::text::joined;
use crate::text::lines_of;
use crate::text::replaced;
use crate::text::swapped;
use crate::text::texts;
use crate::text::trimmed;
use crate::tools::after_last;
use crate::tools::last_after;
use crate::tools::skip_dir;
use crate::tools::skips_dir;
use vstd::prelude::*;

verus! {

/// The size of the orientation without instruction files.
pub const MAX_CHARS: usize = 3000;

/// How deep the map of the tree goes.
pub const TREE_DEPTH: usize = 3;

/// A directory.
pub enum Dir {
    /// It could not be read, or lies too deep.
    Unread,
    /// The files in it, and the directories.
    Read { files: Vec<String>, dirs: Table<Dir> },
}

/// The names of the files in a directory.
pub open spec fn files_of(d: Dir) -> Seq<Seq<char>> {
    match d {
        Dir::Unread => Seq::empty(),
        Dir::Read { files, dirs } => texts(files@),
    }
}

/// The directories in a directory, by name.
pub open spec fn dirs_of(d: Dir) -> Seq<(Seq<char>, Dir)> {
    match d {
        Dir::Unread => Seq::empty(),
        Dir::Read { files, dirs } => dirs@,
    }
}

/// What git says of a workspace.
pub struct Git {
    pub branch: String,
    /// The uncommitted changes, one per line; `None` when clean.
    pub status: Option<String>,
    /// The last commits, one per line.
    pub log: Option<String>,
}

/// What was found in a workspace.
pub struct Facts {
    pub windows: bool,
    pub shell: String,
    pub git: Option<Git>,
    pub tree: Dir,
    /// The project instruction files that exist, with their contents.
    pub instructions: Vec<(String, String)>,
}

/// Whether the map goes into a directory of that name.
pub open spec fn mapped_dir(name: Seq<char>) -> bool {
    !skips_dir(name)
}

pub fn maps_dir(name: &str) -> (r: bool)
    ensures
        r == mapped_dir(name@),
{
    !skip_dir(name)
}

/// The output of a command, if there is any.
pub open spec fn output_of(s: Seq<char>) -> Option<Seq<char>> {
    let t = trimmed(s);
    if t.len() == 0 {
        None
    } else {
        Some(t)
    }
}

/// What git printed: nothing where it failed or had nothing to say.
pub fn git_output(success: bool, stdout: &str) -> (r: Option<String>)
    ensures
        text::opt_text(r) == (if success {
            output_of(stdout@)
        } else {
            None
        }),
{
    if !success {
        return None;
    }
    let s = text::trim(stdout);
    if text::empty(&s) {
        None
    } else {
        Some(s)
    }
}

// ---------------------------------------------------------------------------
// The head
// ---------------------------------------------------------------------------

/// Whether the workspace root has an entry of that name.
pub open spec fn has(d: Dir, name: Seq<char>) -> bool {
    files_of(d).contains(name) || lookup(dirs_of(d), name) is Some
}

/// What kind of project this is, and how to build and test it.
pub open spec fn kind_of(d: Dir) -> Option<Seq<char>> {
    if has(d, "Cargo.toml"@) {
        Some("Rust (cargo build / cargo test)"@)
    } else if has(d, "package.json"@) {
        Some("Node (npm install / npm test)"@)
    } else if has(d, "pyproject.toml"@) || has(d, "requirements.txt"@) {
        Some("Python (pip install -r requirements.txt / pytest)"@)
    } else if has(d, "go.mod"@) {
        Some("Go (go build ./... / go test ./...)"@)
    } else if has(d, "tests.py"@) {
        Some("Python (python tests.py)"@)
    } else {
        None
    }
}

fn holds_entry(d: &Dir, name: &str) -> (r: bool)
    ensures
        r == has(*d, name@),
{
    match d {
        Dir::Unread => false,
        Dir::Read { files, dirs } => text::lists(files, name) || dirs.contains_key(name),
    }
}

fn project_kind(d: &Dir) -> (r: Option<&'static str>)
    ensures
        (match r {
            Some(k) => Some(k@),
            None => None,
        }) == kind_of(*d),
{
    if holds_entry(d, "Cargo.toml") {
        Some("Rust (cargo build / cargo test)")
    } else if holds_entry(d, "package.json") {
        Some("Node (npm install / npm test)")
    } else if holds_entry(d, "pyproject.toml") || holds_entry(d, "requirements.txt") {
        Some("Python (pip install -r requirements.txt / pytest)")
    } else if holds_entry(d, "go.mod") {
        Some("Go (go build ./... / go test ./...)")
    } else if holds_entry(d, "tests.py") {
        Some("Python (python tests.py)")
    } else {
        None
    }
}

/// The line on the operating system and its shell.
pub open spec fn os_line(windows: bool, shell: Seq<char>) -> Seq<char> {
    if windows && shell == "cmd"@ {
        "os: Windows — X runs cmd.exe (dir, type, findstr; no ls/cat/grep)\n"@
    } else if windows {
        "os: Windows — X runs "@ + shell + "\n"@
    } else {
        "os: unix — X runs "@ + shell + "\n"@
    }
}

/// The first `n` of some lines, or all of them.
pub open spec fn upto_n(v: Seq<Seq<char>>, n: int) -> Seq<Seq<char>> {
    v.take(
        if n < v.len() {
            n
        } else {
            v.len() as int
        },
    )
}

/// The state of the repository.
pub open spec fn git_text(g: Git) -> Seq<char> {
    "git: "@ + g.branch@ + (match g.status {
        None => ", clean\n"@,
        Some(s) => ", "@ + decimal(lines_of(s@).len()) + " uncommitted: "@ + joined(
            upto_n(lines_of(s@), 12),
            " "@,
        ) + "\n"@,
    }) + (match g.log {
        None => ""@,
        Some(l) => "recent: "@ + replaced(l@, "\n"@, " | "@) + "\n"@,
    })
}

fn git_state(g: &Git) -> (r: String)
    ensures
        r@ == git_text(*g),
{
    let mut out = "git: ".to_string();
    out.append(&g.branch);
    match &g.status {
        None => {
            out.append(", clean\n");
        },
        Some(s) => {
            let lines = text::lines(s);
            assert(texts(lines@).len() == lines@.len());
            let n: usize = if 12 < lines.len() {
                12
            } else {
                lines.len()
            };
            assert(texts(lines@).subrange(0, n as int) =~= texts(lines@).take(n as int));
            let mut t = ", ".to_string();
            let count = text::dec(lines.len() as u64);
            t.append(&count);
            t.append(" uncommitted: ");
            let names = text::join_range(&lines, 0, n, " ");
            t.append(&names);
            t.append("\n");
            out.append(&t);
        },
    }
    match &g.log {
        None => {
            out.append("");
        },
        Some(l) => {
            let mut t = "recent: ".to_string();
            let line = text::replace(l, "\n", " | ");
            t.append(&line);
            t.append("\n");
            out.append(&t);
        },
    }
    out
}

/// The orientation before the map.
pub open spec fn head_text(f: Facts) -> Seq<char> {
    "--- workspace ---\n"@ + os_line(f.windows, f.shell@) + (match kind_of(f.tree) {
        Some(k) => "project: "@ + k + "\n"@,
        None => ""@,
    }) + (match f.git {
        Some(g) => git_text(g),
        None => ""@,
    }) + "layout (paths below are RELATIVE to the workspace root):\n"@
}

fn head(f: &Facts) -> (r: String)
    ensures
        r@ == head_text(*f),
{
    let mut out = "--- workspace ---\n".to_string();
    let os = if f.windows && text::same(&f.shell, "cmd") {
        "os: Windows — X runs cmd.exe (dir, type, findstr; no ls/cat/grep)\n".to_string()
    } else {
        let mut t = if f.windows {
            "os: Windows — X runs ".to_string()
        } else {
            "os: unix — X runs ".to_string()
        };
        t.append(&f.shell);
        t.append("\n");
        t
    };
    out.append(&os);
    let mut kind = "".to_string();
    if let Some(k) = project_kind(&f.tree) {
        kind = "project: ".to_string();
        kind.append(k);
        kind.append("\n");
    }
    out.append(&kind);
    let git = match &f.git {
        Some(g) => git_state(g),
        None => "".to_string(),
    };
    out.append(&git);
    out.append("layout (paths below are RELATIVE to the workspace root):\n");
    out
}

// ---------------------------------------------------------------------------
// The map
// ---------------------------------------------------------------------------

/// What a file name is counted under: its extension with the dot, or the
/// whole name.
pub open spec fn counted_as(name: Seq<char>) -> Seq<char> {
    let i = last_after(name, '.', name.len() as int);
    if i == 0 {
        name
    } else {
        "."@ + name.skip(i)
    }
}

/// How many of the first `n` files count under each extension.
pub open spec fn ext_counts(names: Seq<Seq<char>>, n: int) -> Seq<(Seq<char>, usize)>
    decreases n,
{
    if n <= 0 {
        Seq::empty()
    } else {
        let before = ext_counts(names, n - 1);
        let k = counted_as(names[n - 1]);
        let c = match lookup(before, k) {
            Some(c) => c,
            None => 0usize,
        };
        put(before, k, held_sum(c as int, 1, usize::MAX as int) as usize)
    }
}

/// The counts as the map shows them.
pub open spec fn count_rows(counts: Seq<(Seq<char>, usize)>) -> Seq<Seq<char>> {
    counts.map_values(|p: (Seq<char>, usize)| decimal(p.1 as nat) + " "@ + p.0)
}

/// The files of a directory. Small directories list actual file names (names
/// are what the model acts on); big ones fall back to counts.
pub open spec fn listing(names: Seq<Seq<char>>) -> Seq<char> {
    let sorted = sorted_of(names);
    if sorted.len() <= 10 {
        joined(sorted, " "@)
    } else {
        joined(count_rows(ext_counts(sorted, sorted.len() as int)), ", "@)
    }
}

/// `n` steps of indentation.
pub open spec fn indent(n: nat) -> Seq<char>
    decreases n,
{
    if n == 0 {
        ""@
    } else {
        indent((n - 1) as nat) + "  "@
    }
}

/// The line of a directory.
pub open spec fn dir_line(d: Dir, path: Seq<char>, depth: nat) -> Seq<char> {
    indent(depth + 1) + (if depth == 0 {
        "(root)"@
    } else {
        swapped(path, '\\', '/') + "/"@
    }) + " ["@ + listing(files_of(d)) + "]\n"@
}

/// The path of an entry in a directory.
pub open spec fn path_in(path: Seq<char>, name: Seq<char>) -> Seq<char> {
    if path.len() == 0 {
        name
    } else {
        path + "/"@ + name
    }
}

/// The map: the budget that is left, and the text. A line that does not fit
/// ends it.
pub open spec fn mapped(d: Dir, path: Seq<char>, depth: nat, budget: nat, out: Seq<char>) -> (
    nat,
    Seq<char>,
)
    decreases TREE_DEPTH + 1 - depth, dirs_of(d).len() + 1,
{
    if budget == 0 || depth > TREE_DEPTH || d is Unread {
        (budget, out)
    } else if files_of(d).len() > 0 || depth == 0 {
        let line = dir_line(d, path, depth);
        if byte_len(line) <= budget {
            mapped_dirs(
                d,
                path,
                depth,
                (budget - byte_len(line)) as nat,
                out + line,
                dirs_of(d).len(),
            )
        } else {
            (0, out)
        }
    } else {
        mapped_dirs(d, path, depth, budget, out, dirs_of(d).len())
    }
}

/// The map after the first `n` directories.
pub open spec fn mapped_dirs(
    d: Dir,
    path: Seq<char>,
    depth: nat,
    budget: nat,
    out: Seq<char>,
    n: nat,
) -> (nat, Seq<char>)
    decreases TREE_DEPTH + 1 - depth, n,
{
    if n == 0 || depth > TREE_DEPTH {
        (budget, out)
    } else {
        let (b, o) = mapped_dirs(d, path, depth, budget, out, (n - 1) as nat);
        let (name, sub) = dirs_of(d)[n - 1];
        if mapped_dir(name) {
            mapped(sub, path_in(path, name), depth + 1, b, o)
        } else {
            (b, o)
        }
    }
}

/// The instruction files as they are pinned.
pub open spec fn instructions_text(v: Seq<(String, String)>, n: int) -> Seq<char>
    decreases n,
{
    if n <= 0 {
        ""@
    } else {
        instructions_text(v, n - 1) + "--- "@ + v[n - 1].0@ + " ---\n"@ + trimmed(v[n - 1].1@)
            + "\n"@
    }
}

/// The orientation.
pub open spec fn state_text(f: Facts) -> Seq<char> {
    let head = head_text(f);
    let budget = if byte_len(head) < MAX_CHARS {
        (MAX_CHARS - byte_len(head)) as nat
    } else {
        0
    };
    mapped(f.tree, ""@, 0, budget, head).1 + instructions_text(
        f.instructions@,
        f.instructions@.len() as int,
    )
}

fn count_as(name: &str) -> (r: String)
    ensures
        r@ == counted_as(name@),
{
    let v = text::chars_of(name);
    let i = after_last(&v, '.');
    if i == 0 {
        name.to_owned()
    } else {
        let mut t = ".".to_string();
        let ext = text::text_between(&v, i, v.len());
        assert(v@.subrange(i as int, v@.len() as int) =~= name@.skip(i as int));
        t.append(&ext);
        t
    }
}

fn list_files(files: &Vec<String>) -> (r: String)
    ensures
        r@ == listing(texts(files@)),
{
    let sorted = table::sort(files);
    let ghost names = sorted_of(texts(files@));
    assert(names.len() == sorted@.len());
    if sorted.len() <= 10 {
        return text::join(&sorted, " ");
    }
    let mut counts: Table<usize> = Table::new();
    let mut i: usize = 0;
    while i < sorted.len()
        invariant
            i <= sorted@.len(),
            names == texts(sorted@),
            counts.wf(),
            counts@ == ext_counts(names, i as int),
        decreases sorted@.len() - i,
    {
        assert(names[i as int] == sorted@[i as int]@);
        let k = count_as(&sorted[i]);
        let c: usize = match counts.get(&k) {
            Some(c) => *c,
            None => 0,
        };
        counts.insert(k, text::add_usize(c, 1));
        i = i + 1;
    }
    assert(i == names.len());
    let mut rows: Vec<String> = Vec::new();
    let mut k: usize = 0;
    let ghost all = count_rows(counts@);
    while k < counts.items.len()
        invariant
            k <= counts.items@.len(),
            all == count_rows(counts@),
            texts(rows@) == all.take(k as int),
        decreases counts.items@.len() - k,
    {
        assert(counts@[k as int] == (counts.items@[k as int].0@, counts.items@[k as int].1));
        let mut t = text::dec(counts.items[k].1 as u64);
        t.append(" ");
        t.append(&counts.items[k].0);
        proof {
            text::lemma_texts_push(rows@, t);
            assert(all.take(k + 1) =~= all.take(k as int).push(t@));
        }
        rows.push(t);
        k = k + 1;
    }
    assert(all.take(all.len() as int) =~= all);
    text::join(&rows, ", ")
}

fn indentation(n: usize) -> (r: String)
    ensures
        r@ == indent(n as nat),
{
    let mut t = "".to_string();
    let mut i: usize = 0;
    while i < n
        invariant
            i <= n,
            t@ == indent(i as nat),
        decreases n - i,
    {
        t.append("  ");
        i = i + 1;
    }
    t
}

/// Compact map: one line per directory.
fn tree(d: &Dir, path: &str, depth: usize, budget: &mut usize, out: &mut String)
    requires
        depth <= TREE_DEPTH + 1,
    ensures
        (*final(budget) as nat, final(out)@) == mapped(
            *d,
            path@,
            depth as nat,
            *old(budget) as nat,
            old(out)@,
        ),
    decreases TREE_DEPTH + 1 - depth,
{
    if *budget == 0 || depth > TREE_DEPTH {
        return ;
    }
    let (files, dirs) = match d {
        Dir::Unread => {
            return ;
        },
        Dir::Read { files, dirs } => (files, dirs),
    };
    assert(files_of(*d).len() == files@.len());
    if files.len() > 0 || depth == 0 {
        let mut line = indentation(depth + 1);
        let label = if depth == 0 {
            "(root)".to_string()
        } else {
            let mut t = text::replace_char(path, '\\', '/');
            t.append("/");
            t
        };
        line.append(&label);
        line.append(" [");
        let listed = list_files(files);
        line.append(&listed);
        line.append("]\n");
        let n = text::bytes_in(&line);
        if n <= *budget {
            *budget = *budget - n;
            out.append(&line);
        } else {
            *budget = 0;
            return ;
        }
    }
    let ghost b0 = *budget as nat;
    let ghost o0 = out@;
    let mut i: usize = 0;
    while i < dirs.items.len()
        invariant
            i <= dirs.items@.len(),
            depth <= TREE_DEPTH,
            dirs@ == dirs_of(*d),
            (*budget as nat, out@) == mapped_dirs(*d, path@, depth as nat, b0, o0, i as nat),
        decreases dirs.items@.len() - i,
    {
        let name = &dirs.items[i].0;
        assert(dirs@[i as int] == (dirs.items@[i as int].0@, dirs.items@[i as int].1));
        if maps_dir(name) {
            let sub = if text::empty(path) {
                name.clone()
            } else {
                let mut t = path.to_owned();
                t.append("/");
                t.append(name);
                t
            };
            tree(&dirs.items[i].1, &sub, depth + 1, budget, out);
        }
        i = i + 1;
    }
    assert(dirs@.len() == dirs.items@.len());
}

/// The orientation that is pinned at the head of a session.
pub fn workspace_state(f: &Facts) -> (r: String)
    ensures
        r@ == state_text(*f),
{
    let mut out = head(f);
    let used = text::bytes_in(&out);
    let mut budget: usize = if used < MAX_CHARS {
        MAX_CHARS - used
    } else {
        0
    };
    tree(&f.tree, "", 0, &mut budget, &mut out);
    let ghost map = out@;
    let mut i: usize = 0;
    assert(map + instructions_text(f.instructions@, 0) =~= map) by {
        reveal_strlit("");
    }
    while i < f.instructions.len()
        invariant
            i <= f.instructions@.len(),
            out@ == map + instructions_text(f.instructions@, i as int),
        decreases f.instructions@.len() - i,
    {
        out.append("--- ");
        out.append(&f.instructions[i].0);
        out.append(" ---\n");
        let body = text::trim(&f.instructions[i].1);
        out.append(&body);
        out.append("\n");
        assert(out@ =~= map + instructions_text(f.instructions@, i + 1));
        i = i + 1;
    }
    out
}

// ---------------------------------------------------------------------------
// Laws
// ---------------------------------------------------------------------------

proof fn lemma_mapped_spends(d: Dir, path: Seq<char>, depth: nat, budget: nat, out: Seq<char>)
    ensures
        ({
            let (b, o) = mapped(d, path, depth, budget, out);
            b + byte_len(o) <= budget + byte_len(out)
        }),
    decreases TREE_DEPTH + 1 - depth, dirs_of(d).len() + 1,
{
    if budget == 0 || depth > TREE_DEPTH || d is Unread {
    } else if files_of(d).len() > 0 || depth == 0 {
        let line = dir_line(d, path, depth);
        if byte_len(line) <= budget {
            text::lemma_byte_len_add(out, line);
            lemma_mapped_dirs_spends(
                d,
                path,
                depth,
                (budget - byte_len(line)) as nat,
                out + line,
                dirs_of(d).len(),
            );
        }
    } else {
        lemma_mapped_dirs_spends(d, path, depth, budget, out, dirs_of(d).len());
    }
}

proof fn lemma_mapped_dirs_spends(
    d: Dir,
    path: Seq<char>,
    depth: nat,
    budget: nat,
    out: Seq<char>,
    n: nat,
)
    ensures
        ({
            let (b, o) = mapped_dirs(d, path, depth, budget, out, n);
            b + byte_len(o) <= budget + byte_len(out)
        }),
    decreases TREE_DEPTH + 1 - depth, n,
{
    if n > 0 && depth <= TREE_DEPTH {
        lemma_mapped_dirs_spends(d, path, depth, budget, out, (n - 1) as nat);
        let (b, o) = mapped_dirs(d, path, depth, budget, out, (n - 1) as nat);
        let (name, sub) = dirs_of(d)[n - 1];
        if mapped_dir(name) {
            lemma_mapped_spends(sub, path_in(path, name), depth + 1, b, o);
        }
    }
}

/// Without instruction files the orientation never grows past its limit,
/// however large the workspace is, unless its head alone is longer.
pub proof fn orientation_is_bounded(f: Facts)
    requires
        f.instructions@.len() == 0,
        byte_len(head_text(f)) <= MAX_CHARS,
    ensures
        byte_len(state_text(f)) <= MAX_CHARS,
{
    let head = head_text(f);
    let budget = (MAX_CHARS - byte_len(head)) as nat;
    lemma_mapped_spends(f.tree, ""@, 0, budget, head);
    let map = mapped(f.tree, ""@, 0, budget, head).1;
    reveal_strlit("");
    assert(map + ""@ =~= map);
}

/// What kind of project a workspace is shows in the files at its root, the first
/// of these that is there: a manifest of Rust, Node, Python or Go, or a file of
/// Python tests. A workspace with none of them says nothing.
pub proof fn a_project_shows_in_its_files(d: Dir)
    ensures
        has(d, "Cargo.toml"@) ==> kind_of(d) is Some && text::begins(kind_of(d)->0, "Rust"@),
        !self::has(d, "Cargo.toml"@) && has(d, "package.json"@) ==> kind_of(d) is Some && text::begins(
            kind_of(d)->0,
            "Node"@,
        ),
        !self::has(d, "Cargo.toml"@) && !self::has(d, "package.json"@) && (has(d, "pyproject.toml"@) || has(
            d,
            "requirements.txt"@,
        )) ==> kind_of(d) is Some && text::begins(kind_of(d)->0, "Python"@) && text::ends(
            kind_of(d)->0,
            "pytest)"@,
        ),
        !self::has(d, "Cargo.toml"@) && !self::has(d, "package.json"@) && !self::has(d, "pyproject.toml"@) && !self::has(
            d,
            "requirements.txt"@,
        ) && has(d, "go.mod"@) ==> kind_of(d) is Some && text::begins(kind_of(d)->0, "Go"@),
        !self::has(d, "Cargo.toml"@) && !self::has(d, "package.json"@) && !self::has(d, "pyproject.toml"@) && !self::has(
            d,
            "requirements.txt"@,
        ) && !self::has(d, "go.mod"@) ==> (kind_of(d) is Some <==> has(d, "tests.py"@)),
        d is Unread ==> kind_of(d) is None,
{
    reveal_strlit("Rust (cargo build / cargo test)");
    reveal_strlit("Node (npm install / npm test)");
    reveal_strlit("Python (pip install -r requirements.txt / pytest)");
    reveal_strlit("Go (go build ./... / go test ./...)");
    reveal_strlit("Rust");
    reveal_strlit("Node");
    reveal_strlit("Python");
    reveal_strlit("pytest)");
    reveal_strlit("Go");
    let r = "Rust (cargo build / cargo test)"@;
    let n = "Node (npm install / npm test)"@;
    let p = "Python (pip install -r requirements.txt / pytest)"@;
    let g = "Go (go build ./... / go test ./...)"@;
    assert(r.subrange(0, 4) =~= "Rust"@);
    assert(n.subrange(0, 4) =~= "Node"@);
    assert(p.subrange(0, 6) =~= "Python"@);
    assert(p.subrange(p.len() - 7, p.len() as int) =~= "pytest)"@);
    assert(g.subrange(0, 2) =~= "Go"@);
}

/// An entry is in a directory by its name, be it a file or a directory; a directory
/// that was not read has none.
pub proof fn entries_are_files_or_directories(
    files: Vec<String>,
    dirs: Table<Dir>,
    i: int,
    j: int,
    name: Seq<char>,
)
    ensures
        0 <= i < files@.len() && files@[i]@ == name ==> has(Dir::Read { files, dirs }, name),
        lookup(dirs@, name) is Some ==> has(Dir::Read { files, dirs }, name),
        lookup(dirs@, name) is None && (forall|k: int|
            0 <= k < files@.len() ==> (#[trigger] files@[k])@ != name) ==> !self::has(
            Dir::Read { files, dirs },
            name,
        ),
        !self::has(Dir::Unread, name),
{
    if 0 <= i < files@.len() {
        assert(texts(files@)[i] == files@[i]@);
    }
    let all = texts(files@);
    if all.contains(name) {
        let k = choose|k: int| 0 <= k < all.len() && all[k] == name;
        assert(files@[k]@ == name);
    }
}

/// What is said of the repository: the branch, and that it is clean exactly where
/// nothing is uncommitted; else how many lines of changes there are, and the first
/// twelve of them.
pub proof fn uncommitted_changes_are_counted(g: Git, changes: Seq<Seq<char>>)
    requires
        g.log is None,
        g.status is Some ==> changes == lines_of(g.status->0@),
    ensures
        g.status is None ==> git_text(g) == "git: "@ + g.branch@ + ", clean\n"@,
        g.status is Some && changes.len() <= 12 ==> git_text(g) == "git: "@ + g.branch@ + ", "@
            + decimal(changes.len()) + " uncommitted: "@ + joined(changes, " "@) + "\n"@,
        g.status is Some && changes.len() > 12 ==> git_text(g) == "git: "@ + g.branch@ + ", "@
            + decimal(changes.len()) + " uncommitted: "@ + joined(changes.take(12), " "@) + "\n"@,
{
    reveal_strlit("");
    if g.status is None {
        assert(git_text(g) =~= "git: "@ + g.branch@ + ", clean\n"@);
    } else {
        let shown = if changes.len() <= 12 {
            changes
        } else {
            changes.take(12)
        };
        assert(upto_n(changes, 12) =~= shown);
        assert(git_text(g) =~= "git: "@ + g.branch@ + ", "@ + decimal(changes.len())
            + " uncommitted: "@ + joined(shown, " "@) + "\n"@);
    }
}

/// The last commits follow on a line of their own, with bars in place of the line
/// ends.
pub proof fn recent_commits_follow(g: Git, h: Git)
    requires
        g.branch == h.branch,
        g.status == h.status,
        g.log is Some,
        h.log is None,
    ensures
        git_text(g) == git_text(h) + "recent: "@ + replaced(g.log->0@, seq!['\n'], " | "@)
            + seq!['\n'],
{
    reveal_strlit("");
    reveal_strlit("\n");
    assert("\n"@ =~= seq!['\n']);
    assert(git_text(g) =~= git_text(h) + "recent: "@ + replaced(g.log->0@, "\n"@, " | "@) + "\n"@);
}

proof fn lemma_no_dot(name: Seq<char>, j: int)
    requires
        0 <= j <= name.len(),
        !name.contains('.'),
    ensures
        last_after(name, '.', j) == 0,
    decreases j,
{
    if j > 0 {
        assert(name.contains(name[j - 1]));
        lemma_no_dot(name, j - 1);
    }
}

proof fn lemma_dot_at(s: Seq<char>, i: int, j: int)
    requires
        0 < i <= j <= s.len(),
        s[i - 1] == '.',
        forall|k: int| i <= k < j ==> s[k] != '.',
    ensures
        last_after(s, '.', j) == i,
    decreases j - i,
{
    if i < j {
        lemma_dot_at(s, i, j - 1);
    }
}

/// A file counts under its extension, which is what follows its last dot; a name
/// without a dot counts under itself.
pub proof fn files_count_by_extension(stem: Seq<char>, ext: Seq<char>)
    requires
        !ext.contains('.'),
    ensures
        counted_as(stem + seq!['.'] + ext) == seq!['.'] + ext,
        counted_as(ext) == ext,
{
    reveal_strlit(".");
    let s = stem + seq!['.'] + ext;
    let i = stem.len() + 1int;
    assert forall|k: int| i <= k < s.len() implies s[k] != '.' by {
        assert(s[k] == ext[k - i]);
        assert(ext.contains(s[k]));
    }
    lemma_dot_at(s, i, s.len() as int);
    assert(s.skip(i) =~= ext);
    assert("."@ =~= seq!['.']);
    lemma_no_dot(ext, ext.len() as int);
}

/// How many of the first `n` names count under `k`.
pub open spec fn how_many(names: Seq<Seq<char>>, k: Seq<char>, n: int) -> nat
    decreases n,
{
    if n <= 0 {
        0
    } else {
        how_many(names, k, n - 1) + (if counted_as(names[n - 1]) == k {
            1nat
        } else {
            0nat
        })
    }
}

/// Every file is counted once, under what it counts under.
pub proof fn every_file_is_counted(names: Seq<Seq<char>>, k: Seq<char>, n: int)
    requires
        0 <= n <= names.len(),
        n <= usize::MAX,
    ensures
        table::in_order(table::keys_in(ext_counts(names, n))),
        lookup(ext_counts(names, n), k) is Some <==> how_many(names, k, n) > 0,
        lookup(ext_counts(names, n), k) is Some ==> lookup(ext_counts(names, n), k)->0 == how_many(
            names,
            k,
            n,
        ),
        how_many(names, k, n) <= n,
    decreases n,
{
    if n > 0 {
        let before = ext_counts(names, n - 1);
        let key = counted_as(names[n - 1]);
        every_file_is_counted(names, k, n - 1);
        every_file_is_counted(names, key, n - 1);
        let c = match lookup(before, key) {
            Some(c) => c,
            None => 0usize,
        };
        table::put_sets_one_key(before, key, held_sum(c as int, 1, usize::MAX as int) as usize);
    } else {
        table::lemma_row(ext_counts(names, 0), k, 0);
    }
}

/// A directory of up to ten files lists them by name, a larger one by count.
pub proof fn small_directories_list_their_files(names: Seq<Seq<char>>)
    ensures
        names.len() <= 10 ==> listing(names) == joined(sorted_of(names), seq![' ']),
        names.len() > 10 ==> listing(names) == joined(
            count_rows(ext_counts(sorted_of(names), names.len() as int)),
            ", "@,
        ),
{
    reveal_strlit(" ");
    assert(" "@ =~= seq![' ']);
    table::sorting_orders_and_keeps(names);
}

proof fn lemma_mapped_grows(d: Dir, path: Seq<char>, depth: nat, budget: nat, out: Seq<char>)
    ensures
        text::begins(mapped(d, path, depth, budget, out).1, out),
    decreases TREE_DEPTH + 1 - depth, dirs_of(d).len() + 1,
{
    lemma_begins_itself(out);
    if budget == 0 || depth > TREE_DEPTH || d is Unread {
    } else if files_of(d).len() > 0 || depth == 0 {
        let line = dir_line(d, path, depth);
        if byte_len(line) <= budget {
            let left = (budget - byte_len(line)) as nat;
            lemma_dirs_grow(d, path, depth, left, out + line, dirs_of(d).len());
            lemma_begins_longer(
                mapped_dirs(d, path, depth, left, out + line, dirs_of(d).len()).1,
                out,
                line,
            );
        }
    } else {
        lemma_dirs_grow(d, path, depth, budget, out, dirs_of(d).len());
    }
}

proof fn lemma_dirs_grow(
    d: Dir,
    path: Seq<char>,
    depth: nat,
    budget: nat,
    out: Seq<char>,
    n: nat,
)
    ensures
        text::begins(mapped_dirs(d, path, depth, budget, out, n).1, out),
    decreases TREE_DEPTH + 1 - depth, n,
{
    lemma_begins_itself(out);
    if n > 0 && depth <= TREE_DEPTH {
        lemma_dirs_grow(d, path, depth, budget, out, (n - 1) as nat);
        let (b, o) = mapped_dirs(d, path, depth, budget, out, (n - 1) as nat);
        let (name, sub) = dirs_of(d)[n - 1];
        if mapped_dir(name) {
            lemma_mapped_grows(sub, path_in(path, name), depth + 1, b, o);
            lemma_begins_chain(mapped(sub, path_in(path, name), depth + 1, b, o).1, o, out);
        }
    }
}

proof fn lemma_begins_itself(s: Seq<char>)
    ensures
        text::begins(s, s),
{
    assert(s.subrange(0, s.len() as int) =~= s);
}

proof fn lemma_begins_longer(s: Seq<char>, a: Seq<char>, b: Seq<char>)
    requires
        text::begins(s, a + b),
    ensures
        text::begins(s, a),
{
    let ab = a + b;
    assert(s.subrange(0, a.len() as int) =~= a) by {
        assert forall|i: int| 0 <= i < a.len() implies s[i] == a[i] by {
            assert(s.subrange(0, ab.len() as int)[i] == ab[i]);
        }
    }
}

proof fn lemma_begins_chain(s: Seq<char>, o: Seq<char>, a: Seq<char>)
    requires
        text::begins(s, o),
        text::begins(o, a),
    ensures
        text::begins(s, a),
{
    assert(s.subrange(0, a.len() as int) =~= a) by {
        assert forall|i: int| 0 <= i < a.len() implies s[i] == a[i] by {
            assert(s.subrange(0, o.len() as int)[i] == o[i]);
            assert(o.subrange(0, a.len() as int)[i] == a[i]);
        }
    }
}

/// A directory shows in the map by a line of its own where it holds files and the
/// line fits; what stood before stays. Nothing is mapped more than three steps below
/// the root, of a directory that was not read, or once the room is used up.
pub proof fn directories_show_in_the_map(
    d: Dir,
    path: Seq<char>,
    depth: nat,
    budget: nat,
    out: Seq<char>,
)
    ensures
        text::begins(mapped(d, path, depth, budget, out).1, out),
        depth > 3 || d is Unread || budget == 0 ==> mapped(d, path, depth, budget, out) == (
            budget,
            out,
        ),
        d is Read && depth <= 3 && (files_of(d).len() > 0 || depth == 0) && 0 < byte_len(
            dir_line(d, path, depth),
        ) <= budget ==> text::begins(
            mapped(d, path, depth, budget, out).1,
            out + dir_line(d, path, depth),
        ),
{
    lemma_mapped_grows(d, path, depth, budget, out);
    if d is Read && depth <= 3 && (files_of(d).len() > 0 || depth == 0) {
        let line = dir_line(d, path, depth);
        if 0 < byte_len(line) <= budget {
            let left = (budget - byte_len(line)) as nat;
            lemma_dirs_grow(d, path, depth, left, out + line, dirs_of(d).len());
        }
    }
}

/// The line of a directory: two spaces for every step and two more, the path with
/// plain slashes, and the files in brackets.
pub proof fn a_line_names_its_directory(d: Dir, path: Seq<char>)
    requires
        !path.contains('\\'),
    ensures
        dir_line(d, path, 0) == seq![' ', ' '] + "(root) ["@ + listing(files_of(d)) + "]\n"@,
        dir_line(d, path, 1) == seq![' ', ' ', ' ', ' '] + path + "/ ["@ + listing(files_of(d))
            + "]\n"@,
{
    reveal_strlit("");
    reveal_strlit("  ");
    reveal_strlit("(root)");
    reveal_strlit(" [");
    reveal_strlit("(root) [");
    reveal_strlit("/");
    reveal_strlit("/ [");
    reveal_with_fuel(indent, 3);
    assert(indent(1) =~= seq![' ', ' ']);
    assert(indent(2) =~= seq![' ', ' ', ' ', ' ']);
    assert("(root)"@ + " ["@ =~= "(root) ["@);
    assert("/"@ + " ["@ =~= "/ ["@);
    assert(swapped(path, '\\', '/') =~= path) by {
        assert forall|i: int| 0 <= i < path.len() implies path[i] != '\\' by {
            assert(path.contains(path[i]));
        }
    }
    assert(dir_line(d, path, 0) =~= seq![' ', ' '] + "(root) ["@ + listing(files_of(d)) + "]\n"@);
    assert(dir_line(d, path, 1) =~= seq![' ', ' ', ' ', ' '] + path + "/ ["@ + listing(
        files_of(d),
    ) + "]\n"@);
}

/// Paths go from the root down, one name after the other.
pub proof fn paths_go_down(path: Seq<char>, name: Seq<char>)
    ensures
        path_in(Seq::empty(), name) == name,
        path.len() > 0 ==> path_in(path, name) == path + seq!['/'] + name,
{
    reveal_strlit("/");
    assert("/"@ =~= seq!['/']);
}

/// The orientation starts with its head and ends with every instruction file, whole
/// but for the white space at its ends, under its name.
pub proof fn instructions_are_pinned_whole(f: Facts, name: String, body: String)
    requires
        f.instructions@.len() > 0,
        f.instructions@.last() == (name, body),
    ensures
        text::begins(state_text(f), head_text(f)),
        text::ends(state_text(f), "--- "@ + name@ + " ---\n"@ + trimmed(body@) + "\n"@),
{
    let head = head_text(f);
    let budget = if byte_len(head) < MAX_CHARS {
        (MAX_CHARS - byte_len(head)) as nat
    } else {
        0
    };
    let map = mapped(f.tree, ""@, 0, budget, head).1;
    lemma_mapped_grows(f.tree, ""@, 0, budget, head);
    let n = f.instructions@.len() as int;
    let last = "--- "@ + name@ + " ---\n"@ + trimmed(body@) + "\n"@;
    let rest = instructions_text(f.instructions@, n - 1);
    let all = state_text(f);
    assert(all =~= map + instructions_text(f.instructions@, n));
    assert(instructions_text(f.instructions@, n) =~= rest + last);
    assert(all.subrange(all.len() - last.len(), all.len() as int) =~= last);
    assert(all.subrange(0, head.len() as int) =~= head) by {
        assert forall|i: int| 0 <= i < head.len() implies all[i] == head[i] by {
            assert(map.subrange(0, head.len() as int)[i] == head[i]);
        }
    }
}

/// The instruction files stand in their order: those before the last are what they
/// were without it.
pub proof fn instructions_keep_their_order(v: Seq<(String, String)>, n: int)
    requires
        0 < n <= v.len(),
    ensures
        text::begins(instructions_text(v, n), instructions_text(v, n - 1)),
        text::ends(
            instructions_text(v, n),
            "--- "@ + v[n - 1].0@ + " ---\n"@ + trimmed(v[n - 1].1@) + "\n"@,
        ),
{
    let rest = instructions_text(v, n - 1);
    let last = "--- "@ + v[n - 1].0@ + " ---\n"@ + trimmed(v[n - 1].1@) + "\n"@;
    let all = instructions_text(v, n);
    assert(all =~= rest + last);
    assert(all.subrange(0, rest.len() as int) =~= rest);
    assert(all.subrange(all.len() - last.len(), all.len() as int) =~= last);
}

/// The head names the shell that commands run in, whatever the system.
pub proof fn the_shell_is_named(shell: Seq<char>)
    ensures
        os_line(false, shell) == "os: unix — X runs "@ + shell + "\n"@,
        shell != "cmd"@ ==> os_line(true, shell) == "os: Windows — X runs "@ + shell + "\n"@,
        text::begins(os_line(true, shell), "os: Windows"@),
{
    reveal_strlit("os: Windows");
    reveal_strlit("os: Windows — X runs ");
    reveal_strlit("os: Windows — X runs cmd.exe (dir, type, findstr; no ls/cat/grep)\n");
    let line = os_line(true, shell);
    assert(line.subrange(0, 11) =~= "os: Windows"@);
}

} // verus!
