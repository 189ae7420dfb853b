//! Walks through the tree of a workspace: which paths are visited, when a walk
//! ends, and what it was for. The files and directories themselves are looked at
//! outside: a walk says which path comes next, and is told what is there.

use crate::outline;
use crate::outline::lang_of;
use crate::table::in_order;
use crate::table::keys_in;
use crate::table::lemma_put_mapped;
use crate::table::put;
use crate::table::text_rows;
use crate::table::Table;
use crate::text;
use crate::text::opt_text;
use crate::text::pairs;
use crate::text::texts;
use crate::tools;
use crate::tools::ext_in;
use crate::tools::name_in;
use crate::tools::skips_dir;
use crate::tools::Grep;
use crate::tools::GREP_MAX_FILES;
use crate::tools::GREP_MAX_FILE_BYTES;
use vstd::prelude::*;

verus! {

/// A walk in progress: the paths still to visit.
pub struct Walk {
    base: String,
    stack: Vec<String>,
    visited: usize,
    over: bool,
}

/// The state of a walk.
#[verifier::ext_equal]
pub struct WalkV {
    /// Where it started.
    pub base: Seq<char>,
    pub stack: Seq<Seq<char>>,
    pub visited: nat,
    /// Whether the tree was too large to be walked to its end.
    pub over: bool,
}

impl View for Walk {
    type V = WalkV;

    closed spec fn view(&self) -> WalkV {
        WalkV {
            base: self.base@,
            stack: texts(self.stack@),
            visited: self.visited as nat,
            over: self.over,
        }
    }
}

/// A walk that starts at a path.
pub open spec fn walk_from(base: Seq<char>) -> WalkV {
    WalkV { base, stack: seq![base], visited: 0, over: false }
}

/// What comes next in a walk: the path to visit, or the end: nothing left, or
/// over the budget.
pub open spec fn walk_step(v: WalkV) -> (WalkV, Option<Seq<char>>) {
    if v.over || v.stack.len() == 0 {
        (v, None)
    } else if v.visited > GREP_MAX_FILES {
        (WalkV { over: true, ..v }, None)
    } else {
        (
            WalkV { stack: v.stack.drop_last(), visited: v.visited + 1, ..v },
            Some(v.stack.last()),
        )
    }
}

/// Whether a walk that started at `base` goes into a directory: into its start
/// in any case, else into none that is passed over.
pub open spec fn goes_into(base: Seq<char>, path: Seq<char>) -> bool {
    path == base || !skips_dir(name_in(path))
}

/// A walk that has been told what a directory holds.
pub open spec fn entered(v: WalkV, path: Seq<char>, held: Seq<Seq<char>>) -> WalkV {
    if goes_into(v.base, path) {
        WalkV { stack: v.stack + held, ..v }
    } else {
        v
    }
}

impl Walk {
    fn from(base: &str) -> (r: Walk)
        ensures
            r@ == walk_from(base@),
    {
        let mut stack: Vec<String> = Vec::new();
        stack.push(base.to_owned());
        let r = Walk { base: base.to_owned(), stack, visited: 0, over: false };
        assert(r@.stack =~= seq![base@]);
        r
    }

    fn next(&mut self) -> (r: Option<String>)
        ensures
            (final(self)@, opt_text(r)) == walk_step(old(self)@),
    {
        if self.over {
            return None;
        }
        let ghost stack0 = texts(self.stack@);
        if self.stack.len() > 0 && self.visited > GREP_MAX_FILES {
            assert(stack0.len() > 0);
            self.over = true;
            return None;
        }
        match self.stack.pop() {
            Some(path) => {
                self.visited = self.visited + 1;
                proof {
                    assert(texts(self.stack@) =~= stack0.drop_last());
                    assert(stack0.last() == path@);
                }
                Some(path)
            },
            None => None,
        }
    }

    fn directory(&mut self, path: &str, held: &Vec<String>)
        ensures
            final(self)@ == entered(old(self)@, path@, texts(held@)),
    {
        if text::same(path, &self.base) || !tools::skip_dir(&tools::file_name(path)) {
            tools::copy_into(&mut self.stack, held, 0, held.len());
            proof {
                assert(texts(held@).subrange(0, held@.len() as int) =~= texts(held@));
            }
        }
    }
}

// ---------------------------------------------------------------------------
// Files by their name
// ---------------------------------------------------------------------------

/// A walk for the files of a name. Two are as good as many: neither is guessed.
/// Nor is one in a tree that is too large to be searched to its end.
pub struct Seek {
    walk: Walk,
    name: String,
    found: Vec<String>,
}

#[verifier::ext_equal]
pub struct SeekV {
    pub walk: WalkV,
    pub name: Seq<char>,
    pub found: Seq<Seq<char>>,
}

impl View for Seek {
    type V = SeekV;

    closed spec fn view(&self) -> SeekV {
        SeekV { walk: self.walk@, name: self.name@, found: texts(self.found@) }
    }
}

/// A search for a name in the whole tree.
pub open spec fn seek_for(name: Seq<char>) -> SeekV {
    SeekV { walk: walk_from(""@), name, found: Seq::empty() }
}

/// What comes next in a search: nothing once two files are found.
pub open spec fn seek_step(v: SeekV) -> (SeekV, Option<Seq<char>>) {
    if v.found.len() > 1 {
        (v, None)
    } else {
        (SeekV { walk: walk_step(v.walk).0, ..v }, walk_step(v.walk).1)
    }
}

/// A search that has visited a file.
pub open spec fn sighted(v: SeekV, path: Seq<char>) -> SeekV {
    if name_in(path) == v.name {
        SeekV { found: v.found.push(path), ..v }
    } else {
        v
    }
}

/// What a search found.
pub open spec fn namesakes_in(v: SeekV) -> Seq<Seq<char>> {
    if v.walk.over {
        Seq::empty()
    } else {
        v.found
    }
}

impl Seek {
    /// Starts a search for a name.
    pub fn new(name: &str) -> (r: Seek)
        ensures
            r@ == seek_for(name@),
    {
        let r = Seek { walk: Walk::from(""), name: name.to_owned(), found: Vec::new() };
        assert(r@.found =~= Seq::<Seq<char>>::empty());
        r
    }

    /// The next path to visit, or `None` at the end of the search.
    pub fn next(&mut self) -> (r: Option<String>)
        ensures
            (final(self)@, opt_text(r)) == seek_step(old(self)@),
    {
        assert(texts(self.found@).len() == self.found@.len());
        if self.found.len() > 1 {
            None
        } else {
            self.walk.next()
        }
    }

    /// Visits one directory, given what it holds.
    pub fn directory(&mut self, path: &str, held: &Vec<String>)
        ensures
            final(self)@ == (SeekV {
                walk: entered(old(self)@.walk, path@, texts(held@)),
                ..old(self)@
            }),
    {
        self.walk.directory(path, held);
    }

    /// Visits one file.
    pub fn file(&mut self, path: &str)
        ensures
            final(self)@ == sighted(old(self)@, path@),
    {
        if text::same(&tools::file_name(path), &self.name) {
            let hit = path.to_owned();
            proof {
                text::lemma_texts_push(self.found@, hit);
            }
            self.found.push(hit);
        }
    }

    /// The files found.
    pub fn namesakes(&self) -> (r: Vec<String>)
        ensures
            texts(r@) == namesakes_in(self@),
    {
        let mut r: Vec<String> = Vec::new();
        if self.walk.over {
            assert(texts(r@) =~= Seq::<Seq<char>>::empty());
            return r;
        }
        tools::copy_into(&mut r, &self.found, 0, self.found.len());
        proof {
            assert(texts(r@) =~= texts(self.found@));
        }
        r
    }
}

// ---------------------------------------------------------------------------
// Code files
// ---------------------------------------------------------------------------

/// A walk for the code files under a directory.
pub struct CodeWalk {
    walk: Walk,
    files: Table<String>,
}

#[verifier::ext_equal]
pub struct CodeWalkV {
    pub walk: WalkV,
    /// The paths of the files and their texts.
    pub files: Seq<(Seq<char>, Seq<char>)>,
}

impl View for CodeWalk {
    type V = CodeWalkV;

    closed spec fn view(&self) -> CodeWalkV {
        CodeWalkV { walk: self.walk@, files: text_rows(self.files@) }
    }
}

/// Whether a file is read for a code map: it has a language that can be
/// outlined, and is not too large.
pub open spec fn is_mapped(path: Seq<char>, size: Option<u64>) -> bool {
    &&& lang_of(ext_in(path)) is Some
    &&& size matches Some(n) && n <= GREP_MAX_FILE_BYTES
}

impl CodeWalk {
    /// The files stand in the order of their paths, none twice.
    pub closed spec fn wf(self) -> bool {
        self.files.wf()
    }

    /// Starts a walk at a directory.
    pub fn new(base: &str) -> (r: CodeWalk)
        ensures
            r.wf(),
            r@ == (CodeWalkV { walk: walk_from(base@), files: Seq::empty() }),
    {
        let r = CodeWalk { walk: Walk::from(base), files: Table::new() };
        assert(r@.files =~= Seq::<(Seq<char>, Seq<char>)>::empty());
        r
    }

    /// The next path to visit, or `None` at the end of the walk.
    pub fn next(&mut self) -> (r: Option<String>)
        requires
            old(self).wf(),
        ensures
            final(self).wf(),
            final(self)@ == (CodeWalkV { walk: walk_step(old(self)@.walk).0, ..old(self)@ }),
            opt_text(r) == walk_step(old(self)@.walk).1,
    {
        self.walk.next()
    }

    /// Visits one directory, given what it holds.
    pub fn directory(&mut self, path: &str, held: &Vec<String>)
        requires
            old(self).wf(),
        ensures
            final(self).wf(),
            final(self)@ == (CodeWalkV {
                walk: entered(old(self)@.walk, path@, texts(held@)),
                ..old(self)@
            }),
    {
        self.walk.directory(path, held);
    }

    /// Whether a file of this size is to be read.
    pub fn wants(path: &str, size: Option<u64>) -> (r: bool)
        ensures
            r == is_mapped(path@, size),
    {
        outline::is_code_ext(&tools::extension(path)) && !Grep::too_big(size)
    }

    /// Visits one file, given its text; `None` where it could not be read.
    pub fn file(&mut self, path: &str, text: Option<String>)
        requires
            old(self).wf(),
        ensures
            final(self).wf(),
            final(self)@ == (match text {
                Some(t) => CodeWalkV { files: put(old(self)@.files, path@, t@), ..old(self)@ },
                None => old(self)@,
            }),
    {
        if let Some(t) = text {
            proof {
                lemma_put_mapped(self.files@, |s: String| s@, path@, t);
            }
            self.files.insert(path.to_owned(), t);
        }
    }

    /// The files read, in the order of their paths.
    pub fn files(self) -> (r: Vec<(String, String)>)
        requires
            self.wf(),
        ensures
            pairs(r@) == self@.files,
            in_order(keys_in(self@.files)),
    {
        proof {
            assert(pairs(self.files.items@) =~= self@.files);
            assert(keys_in(self@.files) =~= keys_in(self.files@));
        }
        self.files.items
    }
}

// ---------------------------------------------------------------------------
// Laws
// ---------------------------------------------------------------------------

/// What a walk visits in a tree in which `held` gives what a directory holds,
/// and nothing for a file; and how it ends.
pub open spec fn walked(v: WalkV, held: spec_fn(Seq<char>) -> Option<Seq<Seq<char>>>) -> (
    WalkV,
    Seq<Seq<char>>,
)
    decreases GREP_MAX_FILES + 1 - v.visited,
{
    match walk_step(v) {
        (after, None) => (after, Seq::empty()),
        (after, Some(path)) => {
            let next = match held(path) {
                Some(inside) => entered(after, path, inside),
                None => after,
            };
            let (end, rest) = walked(next, held);
            (end, seq![path] + rest)
        },
    }
}

/// A walk ends: it never visits more paths than its budget has.
pub proof fn a_walk_ends(v: WalkV, held: spec_fn(Seq<char>) -> Option<Seq<Seq<char>>>)
    requires
        v.visited <= GREP_MAX_FILES + 1,
    ensures
        v.visited + walked(v, held).1.len() <= GREP_MAX_FILES + 1,
        walk_step(walked(v, held).0).1 is None,
    decreases GREP_MAX_FILES + 1 - v.visited,
{
    if let (after, Some(path)) = walk_step(v) {
        let next = match held(path) {
            Some(inside) => entered(after, path, inside),
            None => after,
        };
        a_walk_ends(next, held);
    }
}

/// A walk that was not too long for its budget misses nothing: it visits all
/// that it was to visit, and all that the directories hold that it goes into.
pub proof fn a_walk_misses_nothing(v: WalkV, held: spec_fn(Seq<char>) -> Option<Seq<Seq<char>>>)
    requires
        !walked(v, held).0.over,
    ensures
        forall|i: int| 0 <= i < v.stack.len() ==> walked(v, held).1.contains(#[trigger] v.stack[i]),
        forall|path: Seq<char>, k: int|
            #![trigger walked(v, held).1.contains(path), held(path)->0[k]]
            walked(v, held).1.contains(path) && held(path) is Some && goes_into(v.base, path) && 0
                <= k < held(path)->0.len() ==> walked(v, held).1.contains(held(path)->0[k]),
    decreases GREP_MAX_FILES + 1 - v.visited,
{
    if let (after, Some(first)) = walk_step(v) {
        let next = match held(first) {
            Some(inside) => entered(after, first, inside),
            None => after,
        };
        let visits = walked(v, held).1;
        let rest = walked(next, held).1;
        a_walk_misses_nothing(next, held);
        assert(visits =~= seq![first] + rest);
        assert(visits[0] == first);
        assert forall|p: Seq<char>| rest.contains(p) implies #[trigger] visits.contains(p) by {
            let j = rest.index_of(p);
            assert(visits[j + 1] == p);
        }
        assert forall|i: int| 0 <= i < v.stack.len() implies visits.contains(
            #[trigger] v.stack[i],
        ) by {
            if i < v.stack.len() - 1 {
                assert(next.stack[i] == v.stack[i]);
                assert(rest.contains(v.stack[i]));
            }
        }
        assert forall|path: Seq<char>, k: int|
            #![trigger visits.contains(path), held(path)->0[k]]
            visits.contains(path) && held(path) is Some && goes_into(v.base, path) && 0 <= k
                < held(path)->0.len() implies visits.contains(held(path)->0[k]) by {
            let q = held(path)->0[k];
            if path == first {
                assert(next.stack[after.stack.len() + k] == q);
                assert(rest.contains(q));
            } else {
                let j = visits.index_of(path);
                assert(visits[j] == path);
                assert(rest[j - 1] == path);
                assert(rest.contains(path));
                assert(rest.contains(q));
            }
        }
    }
}

/// What a search comes to in such a tree.
pub open spec fn sought(v: SeekV, held: spec_fn(Seq<char>) -> Option<Seq<Seq<char>>>) -> SeekV
    decreases GREP_MAX_FILES + 1 - v.walk.visited,
{
    match seek_step(v) {
        (after, None) => after,
        (after, Some(path)) => sought(
            match held(path) {
                Some(inside) => SeekV { walk: entered(after.walk, path, inside), ..after },
                None => sighted(after, path),
            },
            held,
        ),
    }
}

/// The files of a name among some paths.
pub open spec fn named(
    paths: Seq<Seq<char>>,
    name: Seq<char>,
    held: spec_fn(Seq<char>) -> Option<Seq<Seq<char>>>,
) -> Seq<Seq<char>>
    decreases paths.len(),
{
    if paths.len() == 0 {
        Seq::empty()
    } else if held(paths[0]) is None && name_in(paths[0]) == name {
        seq![paths[0]] + named(paths.skip(1), name, held)
    } else {
        named(paths.skip(1), name, held)
    }
}

proof fn lemma_found_grows(v: SeekV, held: spec_fn(Seq<char>) -> Option<Seq<Seq<char>>>)
    ensures
        v.found.len() <= sought(v, held).found.len(),
        v.found.len() <= 2 ==> sought(v, held).found.len() <= 2,
    decreases GREP_MAX_FILES + 1 - v.walk.visited,
{
    if let (after, Some(path)) = seek_step(v) {
        let next = match held(path) {
            Some(inside) => SeekV { walk: entered(after.walk, path, inside), ..after },
            None => sighted(after, path),
        };
        lemma_found_grows(next, held);
    }
}

/// A search that found fewer than two files is a whole walk: it ends as the walk
/// ends, and its finds are the files of that name among all that the walk visits.
pub proof fn a_search_is_a_walk(v: SeekV, held: spec_fn(Seq<char>) -> Option<Seq<Seq<char>>>)
    requires
        sought(v, held).found.len() <= 1,
    ensures
        sought(v, held).walk == walked(v.walk, held).0,
        sought(v, held).found == v.found + named(walked(v.walk, held).1, v.name, held),
    decreases GREP_MAX_FILES + 1 - v.walk.visited,
{
    lemma_found_grows(v, held);
    match seek_step(v) {
        (after, None) => {
            assert(v.found + named(walked(v.walk, held).1, v.name, held) =~= v.found);
        },
        (after, Some(path)) => {
            let next = match held(path) {
                Some(inside) => SeekV { walk: entered(after.walk, path, inside), ..after },
                None => sighted(after, path),
            };
            a_search_is_a_walk(next, held);
            let visits = walked(v.walk, held).1;
            let rest = walked(next.walk, held).1;
            assert(visits =~= seq![path] + rest);
            assert(visits.skip(1) =~= rest);
            assert(v.found + named(visits, v.name, held) =~= next.found + named(
                rest,
                v.name,
                held,
            ));
        },
    }
}

/// No namesake is guessed: where a search in a tree comes to one file, that file
/// has the name, and it is the only such one among all that a walk through the
/// whole tree visits. No search comes to more than two.
pub proof fn one_namesake_is_the_only_one(
    name: Seq<char>,
    held: spec_fn(Seq<char>) -> Option<Seq<Seq<char>>>,
)
    ensures
        namesakes_in(sought(seek_for(name), held)).len() <= 2,
        namesakes_in(sought(seek_for(name), held)).len() == 1 ==> {
            let (end, visits) = walked(walk_from(""@), held);
            &&& !end.over
            &&& named(visits, name, held) == namesakes_in(sought(seek_for(name), held))
            &&& name_in(namesakes_in(sought(seek_for(name), held))[0]) == name
        },
{
    let v = seek_for(name);
    lemma_found_grows(v, held);
    if namesakes_in(sought(v, held)).len() == 1 {
        let visits = walked(v.walk, held).1;
        a_search_is_a_walk(v, held);
        assert(v.found + named(visits, name, held) =~= named(visits, name, held));
        lemma_named(visits, name, held, 0);
    }
}

proof fn lemma_named(
    paths: Seq<Seq<char>>,
    name: Seq<char>,
    held: spec_fn(Seq<char>) -> Option<Seq<Seq<char>>>,
    i: int,
)
    requires
        0 <= i < named(paths, name, held).len(),
    ensures
        name_in(named(paths, name, held)[i]) == name,
    decreases paths.len(),
{
    if held(paths[0]) is None && name_in(paths[0]) == name {
        if i > 0 {
            lemma_named(paths.skip(1), name, held, i - 1);
        }
    } else {
        lemma_named(paths.skip(1), name, held, i);
    }
}

/// What is mapped of a workspace: the files whose language is known, up to two
/// million bytes.
pub proof fn code_files_are_mapped(path: Seq<char>, n: u64)
    ensures
        is_mapped(path, Some(n)) <==> lang_of(ext_in(path)) is Some && n <= 2_000_000,
        !is_mapped(path, None),
{
}

} // verus!
