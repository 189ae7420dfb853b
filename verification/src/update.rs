//! Self-update against published releases: what counts as newer, and which
//! file of a release to fetch. Everything fails soft — no network must never
//! break the tool.

use crate::json;
use crate::json::json_item;
use crate::json::json_len;
use crate::json::json_member;
use crate::json::json_value;
use crate::json::str_member;
use crate::text;
use crate::text::decimal;
use crate::text::is_digit;
use crate::text::parsed_upto;
use crate::text::pieces_of;
use crate::text::skip_run;
use crate::text::texts;
use vstd::prelude::*;

verus! {

/// Where releases are published.
pub const REPO: &'static str = "NodeNestor/haste";

/// Any real build is larger than this many bytes.
pub const MIN_ASSET: usize = 100_000;

// ---------------------------------------------------------------------------
// Versions
// ---------------------------------------------------------------------------

/// How many digits `s` has from `i` on.
pub open spec fn digits_end(s: Seq<char>, i: int) -> int
    decreases s.len() - i,
{
    if 0 <= i < s.len() && is_digit(s[i]) {
        digits_end(s, i + 1)
    } else {
        i
    }
}

/// The number that a part of a version starts with; 0 where there is none.
pub open spec fn part_value(s: Seq<char>) -> u32 {
    match parsed_upto(s.take(digits_end(s, 0)), u32::MAX as nat) {
        Some(n) => n as u32,
        None => 0,
    }
}

/// The parts of a version, which may start with `v`.
pub open spec fn version_parts(v: Seq<char>) -> Seq<Seq<char>> {
    pieces_of(v.skip(skip_run(v, 'v', 0)), '.')
}

pub open spec fn part_at(parts: Seq<Seq<char>>, i: int) -> u32 {
    if i < parts.len() {
        part_value(parts[i])
    } else {
        0
    }
}

/// The three numbers of a version.
pub open spec fn triple_of(v: Seq<char>) -> (u32, u32, u32) {
    let parts = version_parts(v);
    (part_at(parts, 0), part_at(parts, 1), part_at(parts, 2))
}

/// Whether version `a` comes after version `b`.
pub open spec fn later(a: (u32, u32, u32), b: (u32, u32, u32)) -> bool {
    a.0 > b.0 || (a.0 == b.0 && (a.1 > b.1 || (a.1 == b.1 && a.2 > b.2)))
}

fn part(s: &str) -> (n: u32)
    ensures
        n == part_value(s@),
{
    let v = text::chars_of(s);
    let mut i: usize = 0;
    while i < v.len() && '0' <= v[i] && v[i] <= '9'
        invariant
            i <= v@.len(),
            v@ == s@,
            digits_end(s@, 0) == digits_end(s@, i as int),
        decreases v@.len() - i,
    {
        i = i + 1;
    }
    let d = text::text_between(&v, 0, i);
    assert(s@.subrange(0, i as int) =~= s@.take(i as int));
    match text::parse_u32(&d) {
        Some(n) => n,
        None => 0,
    }
}

fn nth_part(parts: &Vec<String>, i: usize) -> (n: u32)
    ensures
        n == part_at(texts(parts@), i as int),
{
    if i < parts.len() {
        part(&parts[i])
    } else {
        0
    }
}

/// "v0.2.1" -> (0,2,1); tolerant of missing parts.
pub fn triple(v: &str) -> (r: (u32, u32, u32))
    ensures
        r == triple_of(v@),
{
    let c = text::chars_of(v);
    let mut i: usize = 0;
    while i < c.len() && c[i] == 'v'
        invariant
            i <= c@.len(),
            c@ == v@,
            skip_run(v@, 'v', 0) == skip_run(v@, 'v', i as int),
        decreases c@.len() - i,
    {
        i = i + 1;
    }
    let rest = text::text_between(&c, i, c.len());
    assert(v@.subrange(i as int, v@.len() as int) =~= v@.skip(i as int));
    let parts = text::split(&rest, '.');
    (nth_part(&parts, 0), nth_part(&parts, 1), nth_part(&parts, 2))
}

/// Whether version `a` comes after version `b`.
pub fn newer(a: &str, b: &str) -> (r: bool)
    ensures
        r == later(triple_of(a@), triple_of(b@)),
{
    let x = triple(a);
    let y = triple(b);
    x.0 > y.0 || (x.0 == y.0 && (x.1 > y.1 || (x.1 == y.1 && x.2 > y.2)))
}

// ---------------------------------------------------------------------------
// Releases
// ---------------------------------------------------------------------------

/// The file of a release for an operating system.
pub open spec fn asset_of(windows: bool, macos: bool) -> Seq<char> {
    if windows {
        "haste-windows-x86_64.exe"@
    } else if macos {
        "haste-macos-aarch64"@
    } else {
        "haste-linux-x86_64"@
    }
}

pub fn asset_name(windows: bool, macos: bool) -> (r: &'static str)
    ensures
        r@ == asset_of(windows, macos),
{
    if windows {
        "haste-windows-x86_64.exe"
    } else if macos {
        "haste-macos-aarch64"
    } else {
        "haste-linux-x86_64"
    }
}

/// The tag of a release; empty where it has none.
pub open spec fn tag_of(v: serde_json::Value) -> Seq<char> {
    match str_member(v, "tag_name"@) {
        Some(t) => t,
        None => ""@,
    }
}

/// The line that tells of a newer release.
pub open spec fn notice_of(tag: Seq<char>, cur: Seq<char>) -> Seq<char> {
    "update: "@ + tag + " available (you have v"@ + cur + ") — run `haste update`"@
}

/// What a look at the latest release has to tell: one line if it is newer, and
/// silence in every other case.
pub open spec fn notice_in(body: Seq<char>, cur: Seq<char>) -> Option<Seq<char>> {
    match json_value(body) {
        Ok(v) => {
            let tag = tag_of(v);
            if tag.len() > 0 && later(triple_of(tag), triple_of(cur)) {
                Some(notice_of(tag, cur))
            } else {
                None
            }
        },
        Err(_) => None,
    }
}

fn tag(v: &serde_json::Value) -> (r: String)
    ensures
        r@ == tag_of(*v),
{
    match json::string_at(v, "tag_name") {
        Some(t) => t,
        None => "".to_string(),
    }
}

/// The line that tells of a newer release, for a release that was read.
fn notice_for(t: String, cur: &str) -> (r: Option<String>)
    ensures
        text::opt_text(r) == (if t@.len() > 0 && later(triple_of(t@), triple_of(cur@)) {
            Some(notice_of(t@, cur@))
        } else {
            None
        }),
{
    if text::empty(&t) || !newer(&t, cur) {
        return None;
    }
    let mut line = "update: ".to_string();
    line.append(&t);
    line.append(" available (you have v");
    line.append(cur);
    line.append(") — run `haste update`");
    Some(line)
}

/// The one line of a background version check.
pub fn notice(body: &str, cur: &str) -> (r: Option<String>)
    ensures
        text::opt_text(r) == notice_in(body@, cur@),
{
    match json::parse_json(body) {
        Ok(v) => notice_for(tag(&v), cur),
        Err(_) => None,
    }
}

/// The first of the files of a release, from `i` on, that has this name.
pub open spec fn asset_from(assets: serde_json::Value, want: Seq<char>, i: int, n: int) -> Option<
    serde_json::Value,
>
    decreases n - i,
{
    if i < 0 || i >= n {
        None
    } else {
        let a = json_item(assets, i as nat);
        if str_member(a, "name"@) == Some(want) {
            Some(a)
        } else {
            asset_from(assets, want, i + 1, n)
        }
    }
}

/// Where the file of that name can be fetched.
pub open spec fn url_in(v: serde_json::Value, want: Seq<char>) -> Option<Seq<char>> {
    let assets = json_member(v, "assets"@);
    let n = match json_len(assets) {
        Some(n) => n as int,
        None => 0,
    };
    match asset_from(assets, want, 0, n) {
        Some(a) => str_member(a, "browser_download_url"@),
        None => None,
    }
}

fn url(v: &serde_json::Value, want: &str) -> (r: Option<String>)
    ensures
        text::opt_text(r) == url_in(*v, want@),
{
    let assets = json::member(v, "assets");
    let n: usize = match json::array_len(assets) {
        Some(n) => n,
        None => 0,
    };
    let mut i: usize = 0;
    while i < n
        invariant
            i <= n,
            asset_from(*assets, want@, 0, n as int) == asset_from(
                *assets,
                want@,
                i as int,
                n as int,
            ),
            *assets == json_member(*v, "assets"@),
            n == (match json_len(*assets) {
                Some(n) => n as int,
                None => 0,
            }),
        decreases n - i,
    {
        let a = json::item(assets, i);
        let named = match json::string_at(a, "name") {
            Some(s) => text::same(&s, want),
            None => false,
        };
        if named {
            return json::string_at(a, "browser_download_url");
        }
        i = i + 1;
    }
    None
}

/// What `haste update` has to do.
pub enum Update {
    /// Nothing: why.
    Current { message: String },
    /// Fetch the file and put it in place.
    Fetch { tag: String, url: String },
}

pub enum UpdateV {
    Current { message: Seq<char> },
    Fetch { tag: Seq<char>, url: Seq<char> },
}

impl View for Update {
    type V = UpdateV;

    open spec fn view(&self) -> UpdateV {
        match *self {
            Update::Current { message } => UpdateV::Current { message: message@ },
            Update::Fetch { tag, url } => UpdateV::Fetch { tag: tag@, url: url@ },
        }
    }
}

/// What an update comes to, given the release that was read.
pub open spec fn release_update(
    tag: Seq<char>,
    url: Option<Seq<char>>,
    want: Seq<char>,
    cur: Seq<char>,
) -> Result<UpdateV, Seq<char>> {
    if tag.len() == 0 {
        Err("no releases published yet"@)
    } else if !later(triple_of(tag), triple_of(cur)) {
        Ok(UpdateV::Current { message: "already up to date (v"@ + cur + ")"@ })
    } else {
        match url {
            Some(u) => Ok(UpdateV::Fetch { tag, url: u }),
            None => Err("release "@ + tag + " has no asset '"@ + want + "'"@),
        }
    }
}

/// What an update comes to, given what the release lookup answered.
pub open spec fn update_in(body: Seq<char>, want: Seq<char>, cur: Seq<char>) -> Result<
    UpdateV,
    Seq<char>,
> {
    match json_value(body) {
        Ok(v) => release_update(tag_of(v), url_in(v, want), want, cur),
        Err(e) => Err("release json: "@ + e),
    }
}

/// Decides on an update, given the tag of the latest release and where its
/// file can be fetched.
pub fn decide(tag: String, url: Option<String>, want: &str, cur: &str) -> (r: Result<
    Update,
    String,
>)
    ensures
        (match r {
            Ok(u) => Ok(u@),
            Err(e) => Err(e@),
        }) == release_update(tag@, text::opt_text(url), want@, cur@),
{
    if text::empty(&tag) {
        return Err("no releases published yet".to_string());
    }
    if !newer(&tag, cur) {
        let mut message = "already up to date (v".to_string();
        message.append(cur);
        message.append(")");
        return Ok(Update::Current { message });
    }
    match url {
        Some(url) => Ok(Update::Fetch { tag, url }),
        None => {
            let mut e = "release ".to_string();
            e.append(&tag);
            e.append(" has no asset '");
            e.append(want);
            e.append("'");
            Err(e)
        },
    }
}

/// Decides on an update, given what the release lookup answered.
pub fn plan_update(body: &str, want: &str, cur: &str) -> (r: Result<Update, String>)
    ensures
        (match r {
            Ok(u) => Ok(u@),
            Err(e) => Err(e@),
        }) == update_in(body@, want@, cur@),
{
    match json::parse_json(body) {
        Ok(v) => decide(tag(&v), url(&v, want), want, cur),
        Err(why) => {
            let mut e = "release json: ".to_string();
            e.append(&why);
            Err(e)
        },
    }
}

/// Refuses a download that is too small to be a build.
pub fn check_size(bytes: usize) -> (r: Result<(), String>)
    ensures
        match r {
            Ok(_) => bytes >= MIN_ASSET,
            Err(e) => bytes < MIN_ASSET && e@ == "downloaded asset suspiciously small ("@
                + decimal(bytes as nat) + " bytes) — aborting"@,
        },
{
    if bytes < MIN_ASSET {
        let mut e = "downloaded asset suspiciously small (".to_string();
        let n = text::dec(bytes as u64);
        e.append(&n);
        e.append(" bytes) — aborting");
        Err(e)
    } else {
        Ok(())
    }
}

/// Of two versions at most one comes after the other, and a version never
/// comes after itself: an update never goes round in circles.
pub proof fn later_is_an_order(a: (u32, u32, u32), b: (u32, u32, u32), c: (u32, u32, u32))
    ensures
        !later(a, a),
        !(later(a, b) && later(b, a)),
        later(a, b) && later(b, c) ==> later(a, c),
        a != b ==> later(a, b) || later(b, a),
{
}

proof fn lemma_digits_end(d: Seq<char>, rest: Seq<char>, i: int)
    requires
        0 <= i <= d.len(),
        text::all_digits(d),
        rest.len() > 0 ==> !is_digit(rest[0]),
    ensures
        digits_end(d + rest, i) == d.len(),
    decreases d.len() - i,
{
    let s = d + rest;
    if i < d.len() {
        assert(s[i] == d[i]);
        lemma_digits_end(d, rest, i + 1);
    } else if rest.len() > 0 {
        assert(s[i] == rest[0]);
    }
}

proof fn lemma_part(n: u32, rest: Seq<char>)
    requires
        rest.len() > 0 ==> !is_digit(rest[0]),
    ensures
        part_value(decimal(n as nat) + rest) == n,
        !decimal(n as nat).contains('.'),
        !decimal(n as nat).contains('v'),
{
    let d = decimal(n as nat);
    text::lemma_decimal(n as nat);
    text::decimal_reads_back(n as nat);
    lemma_digits_end(d, rest, 0);
    assert((d + rest).take(d.len() as int) =~= d);
    if d.contains('.') {
        let k = choose|k: int| 0 <= k < d.len() && d[k] == '.';
        assert(is_digit(d[k]));
    }
    if d.contains('v') {
        let k = choose|k: int| 0 <= k < d.len() && d[k] == 'v';
        assert(is_digit(d[k]));
    }
}

/// A version is its three numbers, with or without a `v` in front and whatever
/// label follows the last: `0.2.1`, `v0.2.1` and `v0.2.1-rc` are the same.
pub proof fn a_version_is_its_three_numbers(a: u32, b: u32, c: u32, label: Seq<char>)
    requires
        label.len() > 0 ==> !is_digit(label[0]),
        !label.contains('.'),
    ensures
        ({
            let dot = seq!['.'];
            let numbers = decimal(a as nat) + dot + decimal(b as nat) + dot + decimal(c as nat)
                + label;
            &&& triple_of(numbers) == (a, b, c)
            &&& triple_of(seq!['v'] + numbers) == (a, b, c)
        }),
{
    let dot = seq!['.'];
    let x = decimal(a as nat);
    let y = decimal(b as nat);
    let z = decimal(c as nat) + label;
    let none = Seq::<char>::empty();
    lemma_part(a, none);
    lemma_part(b, none);
    lemma_part(c, label);
    assert(x + none =~= x);
    assert(y + none =~= y);
    text::lemma_decimal(a as nat);
    assert(is_digit(x[0]));
    let numbers = x + dot + y + dot + decimal(c as nat) + label;
    let v = seq![x, y, z];
    assert(!z.contains('.')) by {
        if z.contains('.') {
            let k = choose|k: int| 0 <= k < z.len() && z[k] == '.';
            let d = decimal(c as nat);
            if k < d.len() {
                assert(d.contains(d[k]));
            } else {
                assert(label.contains(label[k - d.len()]));
            }
        }
    }
    assert(!v[0].contains('.') && !v[1].contains('.') && !v[2].contains('.'));
    text::pieces_come_apart_again(v, '.');
    reveal_with_fuel(text::joined, 4);
    assert(v.drop_last() =~= seq![x, y]);
    assert(v.drop_last().drop_last() =~= seq![x]);
    assert(text::joined(v, dot) =~= numbers);
    assert(numbers[0] == x[0]);
    assert(numbers.skip(0) =~= numbers);
    let marked = seq!['v'] + numbers;
    assert(marked[0] == 'v' && marked[1] == numbers[0]);
    reveal_with_fuel(skip_run, 3);
    assert(marked.skip(1) =~= numbers);
}

/// Versions count by their first number, then the second, then the third.
pub proof fn later_numbers_are_later_versions(a: (u32, u32, u32), b: (u32, u32, u32))
    ensures
        a.0 > b.0 ==> later(a, b) && !later(b, a),
        a.0 == b.0 && a.1 > b.1 ==> later(a, b) && !later(b, a),
        a.0 == b.0 && a.1 == b.1 && a.2 > b.2 ==> later(a, b) && !later(b, a),
        !later(a, a),
{
}

/// A release is fetched exactly where it is later than what runs and has the file;
/// without the file that is said, with its name, and a release that is not later
/// changes nothing. The notice comes for the same releases.
pub proof fn only_later_releases_are_fetched(
    tag: Seq<char>,
    url: Option<Seq<char>>,
    want: Seq<char>,
    cur: Seq<char>,
    a: (u32, u32, u32),
    b: (u32, u32, u32),
)
    requires
        tag.len() > 0,
        triple_of(tag) == a,
        triple_of(cur) == b,
    ensures
        ({
            let rises = a.0 > b.0 || (a.0 == b.0 && a.1 > b.1) || (a.0 == b.0 && a.1 == b.1 && a.2
                > b.2);
            let r = release_update(tag, url, want, cur);
            &&& rises && url is Some ==> r == Ok::<UpdateV, Seq<char>>(
                UpdateV::Fetch { tag, url: url->0 },
            )
            &&& rises && url is None ==> r is Err && text::holds(r->Err_0, want) && text::holds(
                r->Err_0,
                tag,
            )
            &&& !rises ==> r is Ok && r->Ok_0 is Current && text::holds(r->Ok_0->message, cur)
        }),
        release_update(Seq::empty(), url, want, cur) is Err,
{
    let e = "release "@ + tag + " has no asset '"@ + want + "'"@;
    text::found_where_it_first_stands(e, want, 0);
    text::found_where_it_first_stands(e, tag, 0);
    let i = ("release "@ + tag + " has no asset '"@).len() as int;
    assert(e.skip(i).take(want.len() as int) =~= want);
    let j = "release "@.len() as int;
    assert(e.skip(j).take(tag.len() as int) =~= tag);
    let m = "already up to date (v"@ + cur + ")"@;
    text::found_where_it_first_stands(m, cur, 0);
    let k = "already up to date (v"@.len() as int;
    assert(m.skip(k).take(cur.len() as int) =~= cur);
}

/// A look at the latest release tells of it exactly where it is later, and names
/// it.
pub proof fn only_later_releases_are_told(body: Seq<char>, cur: Seq<char>)
    ensures
        ({
            let told = notice_in(body, cur);
            match json_value(body) {
                Ok(v) => {
                    let t = str_member(v, "tag_name"@);
                    &&& told is Some <==> t is Some && t->0.len() > 0 && later(
                        triple_of(t->0),
                        triple_of(cur),
                    )
                    &&& told is Some ==> text::holds(told->0, t->0)
                },
                Err(_) => told is None,
            }
        }),
{
    reveal_strlit("");
    if json_value(body) is Ok {
        let tag = tag_of(json_value(body)->Ok_0);
        let line = notice_of(tag, cur);
        text::found_where_it_first_stands(line, tag, 0);
        let i = "update: "@.len() as int;
        assert(line.skip(i).take(tag.len() as int) =~= tag);
    }
}

/// The file of a release is the first that has the name asked for, wherever it
/// stands; there is none where no file has it.
pub proof fn the_named_file_is_fetched(
    assets: serde_json::Value,
    want: Seq<char>,
    i: int,
    k: int,
    n: int,
)
    requires
        0 <= i <= k <= n,
        forall|j: int|
            i <= j < k ==> str_member(#[trigger] json_item(assets, j as nat), "name"@) != Some(want),
        k < n ==> str_member(json_item(assets, k as nat), "name"@) == Some(want),
    ensures
        asset_from(assets, want, i, n) == (if k < n {
            Some(json_item(assets, k as nat))
        } else {
            None
        }),
    decreases k - i,
{
    if i < k {
        assert(str_member(json_item(assets, i as nat), "name"@) != Some(want));
        the_named_file_is_fetched(assets, want, i + 1, k, n);
    }
}

/// Where the file of a release is fetched from: the address that stands with its
/// name.
pub proof fn the_file_has_its_address(v: serde_json::Value, want: Seq<char>, k: int, n: usize)
    requires
        json_len(json_member(v, "assets"@)) == Some(n),
        0 <= k < n,
        forall|j: int|
            0 <= j < k ==> str_member(
                #[trigger] json_item(json_member(v, "assets"@), j as nat),
                "name"@,
            ) != Some(want),
        str_member(json_item(json_member(v, "assets"@), k as nat), "name"@) == Some(want),
    ensures
        url_in(v, want) == str_member(
            json_item(json_member(v, "assets"@), k as nat),
            "browser_download_url"@,
        ),
{
    the_named_file_is_fetched(json_member(v, "assets"@), want, 0, k, n as int);
}

/// Every system has a file of its own.
pub proof fn every_system_has_its_file(macos: bool)
    ensures
        text::holds(asset_of(true, macos), "windows"@),
        text::holds(asset_of(false, true), "macos"@),
        text::holds(asset_of(false, false), "linux"@),
{
    reveal_strlit("haste-windows-x86_64.exe");
    reveal_strlit("haste-macos-aarch64");
    reveal_strlit("haste-linux-x86_64");
    reveal_strlit("windows");
    reveal_strlit("macos");
    reveal_strlit("linux");
    let w = "haste-windows-x86_64.exe"@;
    let m = "haste-macos-aarch64"@;
    let l = "haste-linux-x86_64"@;
    text::found_where_it_first_stands(w, "windows"@, 0);
    text::found_where_it_first_stands(m, "macos"@, 0);
    text::found_where_it_first_stands(l, "linux"@, 0);
    assert(w.skip(6).take(7) =~= "windows"@);
    assert(m.skip(6).take(5) =~= "macos"@);
    assert(l.skip(6).take(5) =~= "linux"@);
}

/// An answer that cannot be read is no update, and says why; one that can is decided
/// by its tag and its file.
pub proof fn releases_are_read_before_they_are_fetched(body: Seq<char>, want: Seq<char>, cur: Seq<char>)
    ensures
        json_value(body) is Err ==> update_in(body, want, cur) == Err::<UpdateV, Seq<char>>(
            "release json: "@ + json_value(body)->Err_0,
        ),
        json_value(body) is Ok && str_member(json_value(body)->Ok_0, "tag_name"@) is None
            ==> update_in(body, want, cur) is Err,
        json_value(body) is Ok && str_member(json_value(body)->Ok_0, "tag_name"@) is Some
            ==> update_in(body, want, cur) == release_update(
            str_member(json_value(body)->Ok_0, "tag_name"@)->0,
            url_in(json_value(body)->Ok_0, want),
            want,
            cur,
        ),
{
    reveal_strlit("");
}

} // verus!
