//! The append-only record of a session.

use crate::text;
use crate::text::byte_len;
use crate::tools;
use crate::tools::clipped;
use std::collections::HashMap;
use vstd::prelude::*;
use vstd::utf8::encode_utf8;

verus! {

broadcast use vstd::std_specs::hash::group_hash_axioms;

#[derive(Clone, Copy, PartialEq, Eq, Structural, Debug)]
pub enum Kind {
    Task,
    /// Pinned context (workspace orientation): rendered verbatim, never folded,
    /// never dropped by any budget pass.
    Pin,
    Action,
    Result,
    Final,
}

#[derive(Clone)]
pub struct Entry {
    pub kind: Kind,
    pub turn: u32,
    pub text: String,
    pub hash: u64,
    /// For read results: interned file id, so the renderer can supersede stale reads.
    pub file: Option<u32>,
}

/// What an entry says.
#[verifier::ext_equal]
pub struct EntryV {
    pub kind: Kind,
    pub turn: u32,
    pub text: Seq<char>,
    pub hash: u64,
    pub file: Option<u32>,
}

impl View for Entry {
    type V = EntryV;

    open spec fn view(&self) -> EntryV {
        EntryV {
            kind: self.kind,
            turn: self.turn,
            text: self.text@,
            hash: self.hash,
            file: self.file,
        }
    }
}

/// What a sequence of entries says.
pub open spec fn entries_of(v: Seq<Entry>) -> Seq<EntryV> {
    v.map_values(|e: Entry| e@)
}

/// Append-only and lossless: entries are never edited. All compression is a
/// rendering decision recomputed against the intact ledger.
pub struct Ledger {
    pub entries: Vec<Entry>,
    /// First occurrence per result hash, for append-time dedup pointers.
    seen: HashMap<u64, usize>,
}

impl View for Ledger {
    type V = Seq<EntryV>;

    closed spec fn view(&self) -> Seq<EntryV> {
        entries_of(self.entries@)
    }
}

/// The FNV-1a hash of a sequence of bytes.
pub open spec fn fnv_of(bytes: Seq<u8>) -> u64
    decreases bytes.len(),
{
    if bytes.len() == 0 {
        0xcbf29ce484222325
    } else {
        (fnv_of(bytes.drop_last()) ^ (bytes.last() as u64)).wrapping_mul(0x100000001b3)
    }
}

/// The hash of a text: FNV-1a over its UTF-8 bytes.
pub open spec fn hash_of(s: Seq<char>) -> u64 {
    fnv_of(encode_utf8(s))
}

pub fn fnv(s: &str) -> (h: u64)
    ensures
        h == hash_of(s@),
{
    let bytes = s.as_bytes();
    let mut h: u64 = 0xcbf29ce484222325;
    let mut i: usize = 0;
    assert(bytes@.take(0) =~= Seq::<u8>::empty());
    while i < bytes.len()
        invariant
            i <= bytes@.len(),
            h == fnv_of(bytes@.take(i as int)),
        decreases bytes@.len() - i,
    {
        proof {
            assert(bytes@.take(i + 1).drop_last() =~= bytes@.take(i as int));
        }
        h = (h ^ (bytes[i] as u64)).wrapping_mul(0x100000001b3);
        i += 1;
    }
    assert(bytes@.take(bytes@.len() as int) =~= bytes@);
    h
}

/// Where a result with the hash `h` first stands in the ledger, if anywhere.
pub open spec fn first_result(es: Seq<EntryV>, h: u64) -> Option<int>
    decreases es.len(),
{
    if es.len() == 0 {
        None
    } else {
        match first_result(es.drop_last(), h) {
            Some(i) => Some(i),
            None => if es.last().kind == Kind::Result && es.last().hash == h {
                Some(es.len() - 1)
            } else {
                None
            },
        }
    }
}

pub proof fn lemma_first_result(es: Seq<EntryV>, h: u64)
    ensures
        match first_result(es, h) {
            Some(i) => 0 <= i < es.len() && es[i].kind == Kind::Result && es[i].hash == h && forall|
                j: int,
            |
                0 <= j < i ==> !(es[j].kind == Kind::Result && es[j].hash == h),
            None => forall|j: int|
                0 <= j < es.len() ==> !(es[j].kind == Kind::Result && es[j].hash == h),
        },
    decreases es.len(),
{
    if es.len() > 0 {
        lemma_first_result(es.drop_last(), h);
        assert forall|j: int| 0 <= j < es.len() - 1 implies es.drop_last()[j] == es[j] by {}
    }
}

/// The pointer that stands for a result that repeats an earlier one: it names
/// the action whose result that was, if an action stands right before it.
pub open spec fn pointer_to(es: Seq<EntryV>, text: Seq<char>) -> Option<Seq<char>> {
    match first_result(es, hash_of(text)) {
        Some(i) => if es[i].text != text {
            None
        } else {
            let what = if i > 0 && es[i - 1].kind == Kind::Action {
                " of `"@ + clipped(es[i - 1].text, 60) + "`"@
            } else {
                ""@
            };
            Some("(= identical to the earlier result"@ + what + " above — content unchanged)"@)
        },
        None => None,
    }
}

/// The entry that is recorded for a text.
pub open spec fn entry_for(kind: Kind, turn: u32, text: Seq<char>, file: Option<u32>) -> EntryV {
    EntryV { kind, turn, text, hash: hash_of(text), file }
}

impl Ledger {
    /// The dedup table points at the first result of every hash.
    pub closed spec fn wf(self) -> bool {
        forall|h: u64|
            #![trigger self.seen@.contains_key(h)]
            match first_result(self@, h) {
                Some(i) => self.seen@.contains_key(h) && self.seen@[h] == i,
                None => !self.seen@.contains_key(h),
            }
    }

    pub fn new() -> (r: Ledger)
        ensures
            r.wf(),
            r@ == Seq::<EntryV>::empty(),
    {
        let r = Ledger { entries: Vec::new(), seen: HashMap::new() };
        assert(r@ =~= Seq::<EntryV>::empty());
        r
    }

    /// How many entries the ledger holds.
    pub fn len(&self) -> (n: usize)
        ensures
            n == self@.len(),
    {
        self.entries.len()
    }

    /// The entry at position `i`.
    pub fn entry(&self, i: usize) -> (e: &Entry)
        requires
            i < self@.len(),
        ensures
            e@ == self@[i as int],
    {
        &self.entries[i]
    }

    /// Appends one entry. Nothing that stands in the ledger changes.
    pub fn push(&mut self, kind: Kind, turn: u32, text: String, file: Option<u32>)
        requires
            old(self).wf(),
        ensures
            final(self).wf(),
            final(self)@ == old(self)@.push(entry_for(kind, turn, text@, file)),
    {
        let ghost before = self@;
        let ghost seen0 = self.seen@;
        let hash = fnv(&text);
        let e = Entry { kind, turn, hash, text, file };
        let at = self.entries.len();
        if kind == Kind::Result && !self.seen.contains_key(&hash) {
            self.seen.insert(hash, at);
        }
        self.entries.push(e);
        proof {
            assert(self@ =~= before.push(e@));
            assert(self@.drop_last() =~= before);
            assert forall|h: u64|
                #![trigger self.seen@.contains_key(h)]
                match first_result(self@, h) {
                    Some(i) => self.seen@.contains_key(h) && self.seen@[h] == i,
                    None => !self.seen@.contains_key(h),
                } by {
                lemma_first_result(before, h);
                assert(seen0.contains_key(h) == (first_result(before, h) is Some));
            }
        }
    }

    /// Append-time dedup: a tool result identical to an earlier one is worth a
    /// pointer, not a re-send. Returns the pointer text, naming the action
    /// whose result it duplicates so the model can find it above.
    pub fn dup_of(&self, text: &str) -> (r: Option<String>)
        requires
            self.wf(),
        ensures
            text::opt_text(r) == pointer_to(self@, text@),
    {
        let h = fnv(text);
        proof {
            lemma_first_result(self@, h);
            assert(self.seen@.contains_key(h) == (first_result(self@, h) is Some));
        }
        let i: usize = match self.seen.get(&h) {
            Some(i) => *i,
            None => {
                return None;
            },
        };
        if !text::same(&self.entries[i].text, text) {
            return None;
        }
        let mut r = "(= identical to the earlier result".to_string();
        let mut what = "".to_string();
        if i > 0 && self.entries[i - 1].kind == Kind::Action {
            assert(self@[i - 1] == self.entries@[i - 1]@);
            what = " of `".to_string();
            let shown = tools::clip(&self.entries[i - 1].text, 60);
            what.append(&shown);
            what.append("`");
        }
        r.append(&what);
        r.append(" above — content unchanged)");
        Some(r)
    }
}

/// A result that stands in the ledger already becomes a pointer, unless an
/// earlier result of another text has the same hash.
pub proof fn repeated_results_become_pointers(es: Seq<EntryV>, i: int, text: Seq<char>)
    requires
        0 <= i < es.len(),
        es[i].kind == Kind::Result,
        es[i].text == text,
        es[i].hash == hash_of(text),
        forall|j: int|
            0 <= j < i && (#[trigger] es[j]).kind == Kind::Result && es[j].hash == hash_of(text)
                ==> es[j].text == text,
    ensures
        pointer_to(es, text) is Some,
{
    lemma_first_result(es, hash_of(text));
}

/// A pointer never stands for a text that the ledger does not hold in full.
pub proof fn pointers_point_at_the_text(es: Seq<EntryV>, text: Seq<char>)
    requires
        pointer_to(es, text) is Some,
    ensures
        exists|i: int|
            0 <= i < es.len() && (#[trigger] es[i]).kind == Kind::Result && es[i].text == text,
{
    lemma_first_result(es, hash_of(text));
}

// ---------------------------------------------------------------------------
// Token estimates
// ---------------------------------------------------------------------------

/// Characters per token, in thousandths, before any usage report.
pub const CPT_MILLI: usize = 4000;

/// Whether a number of characters per token, in thousandths, is one that text
/// can have.
pub open spec fn sane_ratio(cpt: int) -> bool {
    2000 <= cpt <= 6000
}

/// The estimate of the tokens in a text.
pub open spec fn estimate(s: Seq<char>, cpt: int) -> int {
    byte_len(s) as int * 1000 / cpt + 1
}

/// Token estimate used where a number is needed before sending (per-entry
/// budget math). Real API counts are always preferred where they exist; this
/// only fills the gap, and `calibrate` keeps it honest.
pub fn est_tokens(s: &str, cpt_milli: usize) -> (n: usize)
    requires
        sane_ratio(cpt_milli as int),
    ensures
        n == estimate(s@, cpt_milli as int),
        n <= usize::MAX / 2 + 1,
{
    let len: u128 = text::bytes_in(s) as u128;
    let n: u128 = len * 1000 / (cpt_milli as u128) + 1;
    proof {
        let l = len as int;
        let c = cpt_milli as int;
        assert(l * 1000 / c <= l / 2) by (nonlinear_arith)
            requires
                l >= 0,
                c >= 2000,
        ;
    }
    n as usize
}

/// One measurement, clamped to ratios that text can have.
pub open spec fn measured(chars: int, tokens: int) -> int {
    let m = chars * 1000 / tokens;
    if m < 2000 {
        2000
    } else if m > 6000 {
        6000
    } else {
        m
    }
}

/// The ratio after one measurement of a request's characters and its billed
/// tokens: seven parts old and one part new.
pub open spec fn calibrated(old_ratio: int, chars: int, tokens: int) -> int {
    if chars == 0 || tokens == 0 {
        old_ratio
    } else {
        (old_ratio * 7 + measured(chars, tokens)) / 8
    }
}

/// Folds one real (chars sent, tokens billed) measurement into the estimator.
/// A strange request cannot push it out of the sane range.
pub fn calibrate(old_ratio: usize, chars: usize, tokens: u64) -> (r: usize)
    requires
        sane_ratio(old_ratio as int),
    ensures
        r == calibrated(old_ratio as int, chars as int, tokens as int),
        sane_ratio(r as int),
{
    if chars == 0 || tokens == 0 {
        return old_ratio;
    }
    let m: u128 = (chars as u128) * 1000 / (tokens as u128);
    let clamped: usize = if m < 2000 {
        2000
    } else if m > 6000 {
        6000
    } else {
        m as usize
    };
    (old_ratio * 7 + clamped) / 8
}

/// An estimate is the bytes divided by the ratio, rounded down, and one more; so
/// a longer text never costs less.
pub proof fn estimates_follow_the_bytes(a: Seq<char>, b: Seq<char>, cpt: int)
    requires
        sane_ratio(cpt),
    ensures
        (estimate(a, cpt) - 1) * cpt <= byte_len(a) * 1000 < estimate(a, cpt) * cpt,
        byte_len(a) <= byte_len(b) ==> estimate(a, cpt) <= estimate(b, cpt),
{
    let x = byte_len(a) as int * 1000;
    let y = byte_len(b) as int * 1000;
    assert(x / cpt * cpt <= x < (x / cpt + 1) * cpt) by (nonlinear_arith)
        requires
            cpt > 0,
            x >= 0,
    ;
    if byte_len(a) <= byte_len(b) {
        assert(x / cpt <= y / cpt) by (nonlinear_arith)
            requires
                cpt > 0,
                0 <= x <= y,
        ;
    }
}

/// Every measurement moves the ratio toward what was measured, one eighth of the
/// way, and never past it; a ratio that is right stays.
pub proof fn calibration_closes_in(old_ratio: int, chars: int, tokens: int)
    requires
        sane_ratio(old_ratio),
        chars > 0,
        tokens > 0,
        2000 <= chars * 1000 / tokens <= 6000,
    ensures
        ({
            let true_ratio = chars * 1000 / tokens;
            let now = calibrated(old_ratio, chars, tokens);
            &&& old_ratio <= true_ratio ==> old_ratio <= now <= true_ratio
            &&& true_ratio <= old_ratio ==> true_ratio <= now <= old_ratio
            &&& 8 * now <= 7 * old_ratio + true_ratio < 8 * now + 8
        }),
{
}

/// What is recorded is found again by its text: an entry carries the hash of its
/// own text.
pub proof fn entries_carry_their_hash(kind: Kind, turn: u32, text: Seq<char>, file: Option<u32>)
    ensures
        entry_for(kind, turn, text, file).text == text,
        entry_for(kind, turn, text, file).kind == kind,
        entry_for(kind, turn, text, file).turn == turn,
        entry_for(kind, turn, text, file).file == file,
        entry_for(kind, turn, text, file).hash == hash_of(text),
{
}

} // verus!
