//! Small tables keyed by text, kept in the order of their keys.

use crate::text;
use vstd::prelude::*;

verus! {

// ---------------------------------------------------------------------------
// The order of texts
// ---------------------------------------------------------------------------

/// Whether `a` comes before `b`: character by character, a text before its
/// own extensions.
pub open spec fn precedes(a: Seq<char>, b: Seq<char>) -> bool
    decreases a.len(),
{
    if b.len() == 0 {
        false
    } else if a.len() == 0 {
        true
    } else if a[0] != b[0] {
        a[0] < b[0]
    } else {
        precedes(a.drop_first(), b.drop_first())
    }
}

proof fn lemma_not_before_itself(a: Seq<char>)
    ensures
        !precedes(a, a),
    decreases a.len(),
{
    if a.len() > 0 {
        lemma_not_before_itself(a.drop_first());
    }
}

/// The order is total: of two different texts one comes first, and only one.
pub proof fn order_is_total(a: Seq<char>, b: Seq<char>)
    ensures
        precedes(a, b) || a == b || precedes(b, a),
        !(precedes(a, b) && precedes(b, a)),
        !precedes(a, a),
    decreases a.len() + b.len(),
{
    lemma_not_before_itself(a);
    if a.len() > 0 && b.len() > 0 {
        order_is_total(a.drop_first(), b.drop_first());
        if a[0] == b[0] && a.drop_first() == b.drop_first() {
            assert(a =~= seq![a[0]] + a.drop_first());
            assert(b =~= seq![b[0]] + b.drop_first());
        }
    } else if a.len() == 0 && b.len() == 0 {
        assert(a =~= b);
    }
}

pub proof fn order_is_transitive(a: Seq<char>, b: Seq<char>, c: Seq<char>)
    requires
        precedes(a, b),
        precedes(b, c),
    ensures
        precedes(a, c),
    decreases a.len(),
{
    if a.len() > 0 && b.len() > 0 && c.len() > 0 && a[0] == b[0] && b[0] == c[0] {
        order_is_transitive(a.drop_first(), b.drop_first(), c.drop_first());
    }
}

proof fn lemma_precedes_from(a: Seq<char>, b: Seq<char>, i: int)
    requires
        0 <= i <= a.len(),
        i <= b.len(),
        a.take(i) == b.take(i),
    ensures
        precedes(a, b) == precedes(a.skip(i), b.skip(i)),
    decreases i,
{
    if i == 0 {
        assert(a.skip(0) =~= a);
        assert(b.skip(0) =~= b);
    } else {
        assert(a[0] == a.take(i)[0]);
        assert(b[0] == b.take(i)[0]);
        assert(a.drop_first().take(i - 1) =~= a.take(i).drop_first());
        assert(b.drop_first().take(i - 1) =~= b.take(i).drop_first());
        lemma_precedes_from(a.drop_first(), b.drop_first(), i - 1);
        assert(a.drop_first().skip(i - 1) =~= a.skip(i));
        assert(b.drop_first().skip(i - 1) =~= b.skip(i));
    }
}

/// Whether `a` comes before `b`.
pub fn before(a: &str, b: &str) -> (r: bool)
    ensures
        r == precedes(a@, b@),
{
    let x = text::chars_of(a);
    let y = text::chars_of(b);
    let mut i: usize = 0;
    while i < x.len() && i < y.len() && x[i] == y[i]
        invariant
            i <= x@.len(),
            i <= y@.len(),
            forall|k: int| 0 <= k < i ==> x@[k] == y@[k],
        decreases x@.len() - i,
    {
        i += 1;
    }
    proof {
        assert(x@.take(i as int) =~= y@.take(i as int));
        lemma_precedes_from(x@, y@, i as int);
    }
    if i == y.len() {
        false
    } else if i == x.len() {
        true
    } else {
        proof {
            assert(x@.skip(i as int)[0] == x@[i as int]);
            assert(y@.skip(i as int)[0] == y@[i as int]);
        }
        x[i] < y[i]
    }
}

/// Whether the texts stand in order, none twice.
pub open spec fn in_order(v: Seq<Seq<char>>) -> bool {
    forall|i: int, j: int| 0 <= i < j < v.len() ==> precedes(#[trigger] v[i], #[trigger] v[j])
}

// ---------------------------------------------------------------------------
// Sorting
// ---------------------------------------------------------------------------

/// Where `x` goes in `v`, counted from `i`: before the first text that comes
/// after it.
pub open spec fn place_from(v: Seq<Seq<char>>, x: Seq<char>, i: int) -> int
    decreases v.len() - i,
{
    if 0 <= i < v.len() && !precedes(x, v[i]) {
        place_from(v, x, i + 1)
    } else {
        i
    }
}

/// The texts of `v`, sorted; equal ones all stay.
pub open spec fn sorted_of(v: Seq<Seq<char>>) -> Seq<Seq<char>>
    decreases v.len(),
{
    if v.len() == 0 {
        Seq::empty()
    } else {
        let rest = sorted_of(v.drop_last());
        rest.insert(place_from(rest, v.last(), 0), v.last())
    }
}

/// Sorts texts.
pub fn sort(v: &Vec<String>) -> (r: Vec<String>)
    ensures
        text::texts(r@) == sorted_of(text::texts(v@)),
{
    let mut r: Vec<String> = Vec::new();
    let mut i: usize = 0;
    let ghost all = text::texts(v@);
    assert(text::texts(r@) =~= sorted_of(all.take(0)));
    while i < v.len()
        invariant
            i <= v@.len(),
            all == text::texts(v@),
            text::texts(r@) == sorted_of(all.take(i as int)),
        decreases v@.len() - i,
    {
        let x = &v[i];
        let ghost rest = text::texts(r@);
        let mut k: usize = 0;
        while k < r.len() && !before(x, &r[k])
            invariant
                k <= r@.len(),
                rest == text::texts(r@),
                place_from(rest, x@, 0) == place_from(rest, x@, k as int),
            decreases r@.len() - k,
        {
            assert(rest[k as int] == r@[k as int]@);
            k += 1;
        }
        proof {
            if k < r@.len() {
                assert(rest[k as int] == r@[k as int]@);
            }
            assert(place_from(rest, x@, 0) == k);
            assert(all.take(i + 1).drop_last() =~= all.take(i as int));
            assert(all.take(i + 1).last() == x@);
        }
        let copy = x.clone();
        r.insert(k, copy);
        proof {
            assert(text::texts(r@) =~= rest.insert(k as int, x@));
        }
        i += 1;
    }
    assert(all.take(all.len() as int) =~= all);
    r
}

/// Whether the texts stand in order, equal ones side by side.
pub open spec fn is_sorted(v: Seq<Seq<char>>) -> bool {
    forall|i: int, j: int| 0 <= i < j < v.len() ==> !precedes(#[trigger] v[j], #[trigger] v[i])
}

proof fn lemma_place(v: Seq<Seq<char>>, x: Seq<char>, i: int)
    requires
        0 <= i <= v.len(),
    ensures
        i <= place_from(v, x, i) <= v.len(),
        place_from(v, x, i) < v.len() ==> precedes(x, v[place_from(v, x, i)]),
        forall|k: int| i <= k < place_from(v, x, i) ==> !precedes(x, #[trigger] v[k]),
    decreases v.len() - i,
{
    if i < v.len() && !precedes(x, v[i]) {
        lemma_place(v, x, i + 1);
    }
}

/// Sorting gives the same texts, each as often as before, in order.
pub proof fn sorting_orders_and_keeps(v: Seq<Seq<char>>)
    ensures
        is_sorted(sorted_of(v)),
        sorted_of(v).to_multiset() =~= v.to_multiset(),
        sorted_of(v).len() == v.len(),
    decreases v.len(),
{
    broadcast use vstd::seq_lib::group_to_multiset_ensures;

    if v.len() == 0 {
        assert(v =~= Seq::<Seq<char>>::empty());
    } else {
        let rest = sorted_of(v.drop_last());
        let x = v.last();
        sorting_orders_and_keeps(v.drop_last());
        lemma_place(rest, x, 0);
        let k = place_from(rest, x, 0);
        let r = rest.insert(k, x);
        assert(v =~= v.drop_last().push(x));
        assert(r =~= rest.take(k).push(x) + rest.skip(k));
        assert(rest =~= rest.take(k) + rest.skip(k));
        vstd::seq_lib::lemma_multiset_commutative(rest.take(k).push(x), rest.skip(k));
        vstd::seq_lib::lemma_multiset_commutative(rest.take(k), rest.skip(k));
        assert forall|i: int, j: int| 0 <= i < j < r.len() implies !precedes(
            #[trigger] r[j],
            #[trigger] r[i],
        ) by {
            if i < k && j == k {
                assert(r[i] == rest[i]);
            } else if i == k {
                assert(r[j] == rest[j - 1]);
                if precedes(rest[j - 1], x) {
                    order_is_transitive(rest[j - 1], x, rest[k]);
                    order_is_total(rest[k], rest[j - 1]);
                    if k < j - 1 {
                        assert(!precedes(rest[j - 1], rest[k]));
                    }
                }
            } else {
                let a = if i < k { i } else { i - 1 };
                let b = if j < k { j } else { j - 1 };
                assert(r[i] == rest[a]);
                assert(r[j] == rest[b]);
                assert(a < b);
            }
        }
    }
}

// ---------------------------------------------------------------------------
// Tables
// ---------------------------------------------------------------------------

/// A table from texts to values.
#[derive(Clone)]
pub struct Table<V> {
    pub items: Vec<(String, V)>,
}

/// The keys of a table's rows.
pub open spec fn keys_in<V>(rows: Seq<(Seq<char>, V)>) -> Seq<Seq<char>> {
    rows.map_values(|p: (Seq<char>, V)| p.0)
}

/// The first row from `i` on with the key `k`, if there is one.
pub open spec fn row_of<V>(rows: Seq<(Seq<char>, V)>, k: Seq<char>, i: int) -> Option<int>
    decreases rows.len() - i,
{
    if 0 <= i < rows.len() {
        if rows[i].0 == k {
            Some(i)
        } else {
            row_of(rows, k, i + 1)
        }
    } else {
        None
    }
}

/// The value of the key `k`.
pub open spec fn lookup<V>(rows: Seq<(Seq<char>, V)>, k: Seq<char>) -> Option<V> {
    match row_of(rows, k, 0) {
        Some(i) => Some(rows[i].1),
        None => None,
    }
}

/// How many keys, from row `i` on, come before `k`.
pub open spec fn rank_from<V>(rows: Seq<(Seq<char>, V)>, k: Seq<char>, i: int) -> int
    decreases rows.len() - i,
{
    if 0 <= i < rows.len() && precedes(rows[i].0, k) {
        rank_from(rows, k, i + 1)
    } else {
        i
    }
}

/// The rows with `k` set to `v`.
pub open spec fn put<V>(rows: Seq<(Seq<char>, V)>, k: Seq<char>, v: V) -> Seq<(Seq<char>, V)> {
    let i = rank_from(rows, k, 0);
    if i < rows.len() && rows[i].0 == k {
        rows.update(i, (k, v))
    } else {
        rows.insert(i, (k, v))
    }
}

proof fn lemma_rank<V>(rows: Seq<(Seq<char>, V)>, k: Seq<char>, i: int)
    requires
        0 <= i <= rows.len(),
    ensures
        i <= rank_from(rows, k, i) <= rows.len(),
        rank_from(rows, k, i) < rows.len() ==> !precedes(rows[rank_from(rows, k, i)].0, k),
        forall|j: int| i <= j < rank_from(rows, k, i) ==> precedes(#[trigger] rows[j].0, k),
    decreases rows.len() - i,
{
    if i < rows.len() && precedes(rows[i].0, k) {
        lemma_rank(rows, k, i + 1);
    }
}

pub proof fn lemma_row<V>(rows: Seq<(Seq<char>, V)>, k: Seq<char>, i: int)
    requires
        0 <= i,
    ensures
        match row_of(rows, k, i) {
            Some(j) => i <= j < rows.len() && rows[j].0 == k && forall|m: int|
                i <= m < j ==> #[trigger] rows[m].0 != k,
            None => forall|m: int| i <= m < rows.len() ==> #[trigger] rows[m].0 != k,
        },
    decreases rows.len() - i,
{
    if i < rows.len() && rows[i].0 != k {
        lemma_row(rows, k, i + 1);
    }
}

/// Setting a key keeps the order of the rows, gives that key its value, and
/// leaves every other key as it was.
pub proof fn put_sets_one_key<V>(rows: Seq<(Seq<char>, V)>, k: Seq<char>, v: V)
    requires
        in_order(keys_in(rows)),
    ensures
        in_order(keys_in(put(rows, k, v))),
        lookup(put(rows, k, v), k) == Some(v),
        forall|q: Seq<char>| q != k ==> #[trigger] lookup(put(rows, k, v), q) == lookup(rows, q),
{
    let i = rank_from(rows, k, 0);
    let after = put(rows, k, v);
    lemma_rank(rows, k, 0);
    let ks = keys_in(rows);
    assert forall|a: int, b: int| 0 <= a < b < after.len() implies precedes(
        #[trigger] keys_in(after)[a],
        #[trigger] keys_in(after)[b],
    ) by {
        if after.len() == rows.len() {
            assert(keys_in(after)[a] == ks[a]);
            assert(keys_in(after)[b] == ks[b]);
        } else {
            let x = if a < i { a } else { a - 1 };
            let y = if b < i { b } else { b - 1 };
            if a != i {
                assert(keys_in(after)[a] == ks[x]);
            }
            if b != i {
                assert(keys_in(after)[b] == ks[y]);
            }
            if a == i {
                order_is_total(rows[i].0, k);
                if i < b - 1 {
                    assert(precedes(ks[i], ks[b - 1]));
                    order_is_transitive(k, ks[i], ks[b - 1]);
                }
            } else if b == i {
                assert(precedes(rows[a].0, k));
            } else {
                assert(x < y);
            }
        }
    }
    lemma_row(after, k, 0);
    assert(after[i].0 == k);
    lemma_at_most_one(after, k);
    assert forall|q: Seq<char>| q != k implies #[trigger] lookup(after, q) == lookup(rows, q) by {
        lemma_row(after, q, 0);
        lemma_row(rows, q, 0);
        lemma_at_most_one(rows, q);
        lemma_at_most_one(after, q);
        match row_of(after, q, 0) {
            Some(j) => {
                if after.len() == rows.len() {
                    assert(rows[j].0 == q);
                } else {
                    let m = if j < i { j } else { j - 1 };
                    assert(rows[m] == after[j]);
                }
            },
            None => {
                match row_of(rows, q, 0) {
                    Some(m) => {
                        if after.len() == rows.len() {
                            assert(after[m].0 == q);
                        } else {
                            let j = if m < i { m } else { m + 1 };
                            assert(after[j] == rows[m]);
                        }
                    },
                    None => {},
                }
            },
        }
    }
}

pub proof fn lemma_at_most_one<V>(rows: Seq<(Seq<char>, V)>, k: Seq<char>)
    requires
        in_order(keys_in(rows)),
    ensures
        forall|i: int, j: int|
            0 <= i < rows.len() && 0 <= j < rows.len() && (#[trigger] rows[i]).0 == k && (
            #[trigger] rows[j]).0 == k ==> i == j,
{
    assert forall|i: int, j: int|
        0 <= i < rows.len() && 0 <= j < rows.len() && (#[trigger] rows[i]).0 == k && (
        #[trigger] rows[j]).0 == k implies i == j by {
        let ks = keys_in(rows);
        order_is_total(k, k);
        assert(ks[i] == k && ks[j] == k);
        if i < j {
            assert(precedes(ks[i], ks[j]));
        } else if j < i {
            assert(precedes(ks[j], ks[i]));
        }
    }
}

/// A table with its values mapped.
pub open spec fn with_values<V, W>(rows: Seq<(Seq<char>, V)>, f: spec_fn(V) -> W) -> Seq<
    (Seq<char>, W),
> {
    rows.map_values(|p: (Seq<char>, V)| (p.0, f(p.1)))
}

/// A table of texts.
pub open spec fn text_rows(rows: Seq<(Seq<char>, String)>) -> Seq<(Seq<char>, Seq<char>)> {
    with_values(rows, |s: String| s@)
}

proof fn lemma_rank_mapped<V, W>(
    rows: Seq<(Seq<char>, V)>,
    f: spec_fn(V) -> W,
    k: Seq<char>,
    i: int,
)
    requires
        0 <= i <= rows.len(),
    ensures
        rank_from(with_values(rows, f), k, i) == rank_from(rows, k, i),
        i <= rank_from(rows, k, i) <= rows.len(),
    decreases rows.len() - i,
{
    if i < rows.len() {
        assert(with_values(rows, f)[i].0 == rows[i].0);
        lemma_rank_mapped(rows, f, k, i + 1);
    }
}

/// Mapping the values of a table commutes with setting one.
pub proof fn lemma_put_mapped<V, W>(
    rows: Seq<(Seq<char>, V)>,
    f: spec_fn(V) -> W,
    k: Seq<char>,
    v: V,
)
    ensures
        with_values(put(rows, k, v), f) == put(with_values(rows, f), k, f(v)),
{
    lemma_rank_mapped(rows, f, k, 0);
    let i = rank_from(rows, k, 0);
    if i < rows.len() {
        assert(with_values(rows, f)[i].0 == rows[i].0);
    }
    assert(with_values(put(rows, k, v), f) =~= put(with_values(rows, f), k, f(v)));
}

impl<V> View for Table<V> {
    type V = Seq<(Seq<char>, V)>;

    open spec fn view(&self) -> Seq<(Seq<char>, V)> {
        self.items@.map_values(|p: (String, V)| (p.0@, p.1))
    }
}

impl<V> Table<V> {
    /// The rows stand in the order of their keys, no key twice.
    pub open spec fn wf(self) -> bool {
        in_order(keys_in(self@))
    }

    pub fn new() -> (r: Table<V>)
        ensures
            r@ == Seq::<(Seq<char>, V)>::empty(),
            r.wf(),
    {
        let r = Table { items: Vec::new() };
        assert(r@ =~= Seq::<(Seq<char>, V)>::empty());
        r
    }

    pub fn len(&self) -> (n: usize)
        ensures
            n == self@.len(),
    {
        self.items.len()
    }

    fn row(&self, k: &str) -> (r: Option<usize>)
        ensures
            match r {
                Some(i) => row_of(self@, k@, 0) == Some(i as int) && i < self@.len(),
                None => row_of(self@, k@, 0) is None,
            },
    {
        let mut i: usize = 0;
        while i < self.items.len()
            invariant
                i <= self@.len(),
                row_of(self@, k@, 0) == row_of(self@, k@, i as int),
            decreases self@.len() - i,
        {
            assert(self@[i as int].0 == self.items@[i as int].0@);
            if text::same(&self.items[i].0, k) {
                return Some(i);
            }
            i += 1;
        }
        None
    }

    pub fn get(&self, k: &str) -> (r: Option<&V>)
        ensures
            match r {
                Some(v) => lookup(self@, k@) == Some(*v),
                None => lookup(self@, k@) is None,
            },
    {
        match self.row(k) {
            Some(i) => Some(&self.items[i].1),
            None => None,
        }
    }

    pub fn contains_key(&self, k: &str) -> (r: bool)
        ensures
            r == (lookup(self@, k@) is Some),
    {
        self.row(k).is_some()
    }

    /// The keys in order.
    pub fn keys(&self) -> (r: Vec<String>)
        ensures
            text::texts(r@) == keys_in(self@),
    {
        let mut r: Vec<String> = Vec::new();
        let mut i: usize = 0;
        while i < self.items.len()
            invariant
                i <= self@.len(),
                text::texts(r@) == keys_in(self@).take(i as int),
            decreases self@.len() - i,
        {
            let k = self.items[i].0.clone();
            let ghost r0 = r@;
            r.push(k);
            proof {
                text::lemma_texts_push(r0, k);
                assert(keys_in(self@).take(i + 1) =~= keys_in(self@).take(i as int).push(k@));
            }
            i += 1;
        }
        assert(keys_in(self@).take(self@.len() as int) =~= keys_in(self@));
        r
    }

    /// Sets the value of a key.
    pub fn insert(&mut self, k: String, v: V)
        requires
            old(self).wf(),
        ensures
            final(self).wf(),
            final(self)@ == put(old(self)@, k@, v),
    {
        let ghost rows = self@;
        proof {
            put_sets_one_key(rows, k@, v);
        }
        let mut i: usize = 0;
        let mut end: usize = self.items.len();
        while i < end
            invariant
                i <= end <= rows.len(),
                rows == self@,
                in_order(keys_in(rows)),
                forall|j: int| 0 <= j < i ==> precedes((#[trigger] rows[j]).0, k@),
                forall|j: int| end <= j < rows.len() ==> !precedes((#[trigger] rows[j]).0, k@),
            decreases end - i,
        {
            let mid: usize = i + (end - i) / 2;
            let ghost here = rows[mid as int].0;
            assert(here == self.items@[mid as int].0@);
            assert(keys_in(rows)[mid as int] == here);
            if before(&self.items[mid].0, &k) {
                proof {
                    assert forall|j: int| 0 <= j < mid implies precedes(
                        (#[trigger] rows[j]).0,
                        k@,
                    ) by {
                        assert(keys_in(rows)[j] == rows[j].0);
                        order_is_transitive(rows[j].0, here, k@);
                    }
                }
                i = mid + 1;
            } else {
                proof {
                    assert forall|j: int| mid < j < rows.len() implies !precedes(
                        (#[trigger] rows[j]).0,
                        k@,
                    ) by {
                        assert(keys_in(rows)[j] == rows[j].0);
                        if precedes(rows[j].0, k@) {
                            order_is_transitive(here, rows[j].0, k@);
                        }
                    }
                }
                end = mid;
            }
        }
        proof {
            if i < rows.len() {
                assert(rows[i as int].0 == self.items@[i as int].0@);
            }
            lemma_rank(rows, k@, 0);
            assert(rank_from(rows, k@, 0) == i);
        }
        if i < self.items.len() && text::same(&self.items[i].0, &k) {
            self.items[i] = (k, v);
            assert(self@ =~= rows.update(i as int, (k@, v)));
        } else {
            self.items.insert(i, (k, v));
            assert(self@ =~= rows.insert(i as int, (k@, v)));
        }
    }
}

impl Table<String> {
    /// A table with the same rows.
    pub fn copy(&self) -> (r: Table<String>)
        ensures
            r@ == self@,
    {
        let mut items: Vec<(String, String)> = Vec::new();
        let mut i: usize = 0;
        while i < self.items.len()
            invariant
                i <= self.items@.len(),
                items@ == self.items@.take(i as int),
            decreases self.items@.len() - i,
        {
            let row = (self.items[i].0.clone(), self.items[i].1.clone());
            items.push(row);
            assert(items@ =~= self.items@.take(i + 1));
            i += 1;
        }
        assert(items@ =~= self.items@);
        Table { items }
    }
}

} // verus!
