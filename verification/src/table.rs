//! Association tables: rows of a key and a value, no key twice, in the order in
//! which the keys first came.

use vstd::prelude::*;

use crate::seqs;
use crate::text;

verus! {

// --- The model ---------------------------------------------------------------

/// Where the key `k` stands.
pub open spec fn at<A, V>(rows: Seq<(A, V)>, k: A) -> Option<int> {
    seqs::first_where(rows, |r: (A, V)| r.0 == k)
}

/// The value of the key `k`.
pub open spec fn get<A, V>(rows: Seq<(A, V)>, k: A) -> Option<V> {
    match at(rows, k) {
        Some(i) => Some(rows[i].1),
        None => None,
    }
}

pub open spec fn get_or<A, V>(rows: Seq<(A, V)>, k: A, default: V) -> V {
    match at(rows, k) {
        Some(i) => rows[i].1,
        None => default,
    }
}

/// The rows with the value of `k` replaced, or with a row added for it.
pub open spec fn put<A, V>(rows: Seq<(A, V)>, k: A, v: V) -> Seq<(A, V)> {
    match at(rows, k) {
        Some(i) => rows.update(i, (k, v)),
        None => rows.push((k, v)),
    }
}

/// The rows without that of `k`.
pub open spec fn without<A, V>(rows: Seq<(A, V)>, k: A) -> Seq<(A, V)> {
    match at(rows, k) {
        Some(i) => rows.remove(i),
        None => rows,
    }
}

pub open spec fn distinct<A, V>(rows: Seq<(A, V)>) -> bool {
    forall|i: int, j: int|
        0 <= i < j < rows.len() ==> (#[trigger] rows[i]).0 != (#[trigger] rows[j]).0
}

pub proof fn lemma_at<A, V>(rows: Seq<(A, V)>, k: A)
    ensures
        match at(rows, k) {
            Some(i) => 0 <= i < rows.len() && rows[i].0 == k && forall|j: int|
                0 <= j < i ==> (#[trigger] rows[j]).0 != k,
            None => forall|i: int| 0 <= i < rows.len() ==> (#[trigger] rows[i]).0 != k,
        },
{
    seqs::lemma_first_where(rows, |r: (A, V)| r.0 == k);
}

/// A row with the key `k` that has none before it is the one found.
pub proof fn lemma_is_at<A, V>(rows: Seq<(A, V)>, k: A, i: int)
    requires
        0 <= i < rows.len(),
        rows[i].0 == k,
        forall|j: int| 0 <= j < i ==> (#[trigger] rows[j]).0 != k,
    ensures
        at(rows, k) == Some(i),
{
    lemma_at(rows, k);
}

/// In a table no key stands twice, so a row is found by its key.
pub proof fn lemma_at_row<A, V>(rows: Seq<(A, V)>, i: int)
    requires
        distinct(rows),
        0 <= i < rows.len(),
    ensures
        at(rows, rows[i].0) == Some(i),
{
    lemma_at(rows, rows[i].0);
}

/// What was put under a key is found under it, every other key keeps its value,
/// and no key comes to stand twice.
pub proof fn law_put_then_get<A, V>(rows: Seq<(A, V)>, k: A, v: V)
    ensures
        distinct(rows) ==> distinct(put(rows, k, v)),
        get(put(rows, k, v), k) == Some(v),
        forall|j: A| j != k ==> #[trigger] get(put(rows, k, v), j) == get(rows, j),
        put(rows, k, v).len() == if at(rows, k) is Some {
            rows.len()
        } else {
            rows.len() + 1
        },
{
    let after = put(rows, k, v);
    lemma_at(rows, k);
    assert forall|i: int, j: int| distinct(rows) && 0 <= i < j < after.len() implies (
    #[trigger] after[i]).0 != (#[trigger] after[j]).0 by {
        if i < rows.len() && j < rows.len() {
            assert(rows[i].0 != rows[j].0);
        }
    }
    let spot = match at(rows, k) {
        Some(i) => i,
        None => rows.len() as int,
    };
    assert forall|j: int| 0 <= j < spot implies (#[trigger] after[j]).0 != k by {
        assert(rows[j].0 != k);
    }
    lemma_is_at(after, k, spot);
    assert forall|j: A| j != k implies #[trigger] get(after, j) == get(rows, j) by {
        lemma_at(rows, j);
        lemma_at(after, j);
        match at(rows, j) {
            Some(i) => {
                assert(after[i] == rows[i]);
                assert forall|x: int| 0 <= x < i implies (#[trigger] after[x]).0 != j by {
                    assert(rows[x].0 != j);
                }
                lemma_is_at(after, j, i);
            },
            None => {
                if at(after, j) is Some {
                    let i = at(after, j)->0;
                    if i < rows.len() {
                        assert(rows[i].0 != j);
                    }
                }
            },
        }
    }
}

// --- The table ---------------------------------------------------------------

/// A key that can be held against another.
pub trait Label: View + Sized {
    fn same(&self, other: &Self) -> (r: bool)
        ensures
            r == (self@ == other@),
    ;
}

impl Label for String {
    fn same(&self, other: &Self) -> (r: bool) {
        *self == *other
    }
}

impl Label for u64 {
    fn same(&self, other: &Self) -> (r: bool) {
        *self == *other
    }
}

impl Label for (String, String) {
    fn same(&self, other: &Self) -> (r: bool) {
        self.0 == other.0 && self.1 == other.1
    }
}

impl Label for (String, String, String) {
    fn same(&self, other: &Self) -> (r: bool) {
        self.0 == other.0 && self.1 == other.1 && self.2 == other.2
    }
}

pub struct Table<K, V> {
    rows: Vec<(K, V)>,
}

pub open spec fn row_view<K: Label, V>(r: (K, V)) -> (K::V, V) {
    (r.0@, r.1)
}

impl<K: Label, V> View for Table<K, V> {
    type V = Seq<(K::V, V)>;

    closed spec fn view(&self) -> Seq<(K::V, V)> {
        self.rows@.map_values(|r: (K, V)| row_view(r))
    }
}

impl<K: Label, V> Table<K, V> {
    pub open spec fn wf(&self) -> bool {
        distinct(self@)
    }

    pub fn new() -> (r: Self)
        ensures
            r@ == Seq::<(K::V, V)>::empty(),
            r.wf(),
    {
        let r = Table { rows: Vec::new() };
        assert(r@ =~= Seq::<(K::V, V)>::empty());
        r
    }

    pub fn len(&self) -> (r: usize)
        ensures
            r == self@.len(),
    {
        self.rows.len()
    }

    /// The rows, in order.
    pub fn rows(&self) -> (r: &Vec<(K, V)>)
        ensures
            r@.len() == self@.len(),
            forall|i: int| 0 <= i < r@.len() ==> #[trigger] row_view(r@[i]) == self@[i],
    {
        &self.rows
    }

    /// Where the key `k` stands.
    pub fn find(&self, k: &K) -> (r: Option<usize>)
        ensures
            match r {
                Some(i) => i < self@.len() && at(self@, k@) == Some(i as int),
                None => at(self@, k@) is None,
            },
    {
        let ghost f = |r: (K::V, V)| r.0 == k@;
        let mut i: usize = 0;
        while i < self.rows.len()
            invariant
                i <= self.rows@.len(),
                f == |r: (K::V, V)| r.0 == k@,
                forall|j: int| 0 <= j < i ==> !f(#[trigger] self@[j]),
            decreases self.rows@.len() - i,
        {
            assert(self@[i as int] == row_view(self.rows@[i as int]));
            if self.rows[i].0.same(k) {
                proof {
                    seqs::lemma_is_first(self@, f, i as int);
                }
                return Some(i);
            }
            i += 1;
        }
        proof {
            seqs::lemma_is_none(self@, f);
        }
        None
    }

    pub fn get(&self, k: &K) -> (r: Option<&V>)
        ensures
            match r {
                Some(v) => get(self@, k@) == Some(*v),
                None => get(self@, k@) is None,
            },
    {
        match self.find(k) {
            Some(i) => {
                assert(self@[i as int] == row_view(self.rows@[i as int]));
                Some(&self.rows[i].1)
            },
            None => None,
        }
    }

    pub fn contains(&self, k: &K) -> (r: bool)
        ensures
            r == (at(self@, k@) is Some),
    {
        self.find(k).is_some()
    }

    /// The value of the row at position `i`, to be changed.
    pub fn value_mut(&mut self, i: usize) -> (r: &mut V)
        requires
            i < old(self)@.len(),
        ensures
            *r == old(self)@[i as int].1,
            final(self)@ == old(self)@.update(i as int, (old(self)@[i as int].0, *final(r))),
            old(self).wf() ==> final(self).wf(),
    {
        let ghost before = self@;
        proof {
            assert(self@[i as int] == row_view(self.rows@[i as int]));
            let f = |r: (K, V)| row_view(r);
            assert forall|row: (K, V)| #[trigger]
                self.rows@.update(i as int, row).map_values(f) == before.update(
                    i as int,
                    row_view(row),
                ) by {
                assert(self.rows@.update(i as int, row).map_values(f) =~= before.update(
                    i as int,
                    row_view(row),
                ));
            }
            assert forall|v: V| distinct(before) implies #[trigger] distinct(
                before.update(i as int, (before[i as int].0, v)),
            ) by {
                let after = before.update(i as int, (before[i as int].0, v));
                assert forall|a: int, b: int| 0 <= a < b < after.len() implies (
                #[trigger] after[a]).0 != (#[trigger] after[b]).0 by {
                    assert(before[a].0 != before[b].0);
                }
            }
        }
        &mut self.rows[i].1
    }

    /// The value of the key `k`, to be changed; a key that is new starts from
    /// `default`.
    pub fn entry(&mut self, k: K, default: V) -> (r: &mut V)
        requires
            old(self).wf(),
        ensures
            *r == get_or(old(self)@, k@, default),
            final(self)@ == put(old(self)@, k@, *final(r)),
            final(self).wf(),
    {
        let ghost before = self@;
        proof {
            lemma_at(before, k@);
        }
        match self.find(&k) {
            Some(i) => self.value_mut(i),
            None => {
                let n = self.rows.len();
                self.rows.push((k, default));
                proof {
                    assert(self@ =~= before.push((k@, default)));
                    law_put_then_get(before, k@, default);
                    assert forall|v: V| #[trigger] self@.update(n as int, (k@, v)) == before.push((k@, v)) by {
                        assert(self@.update(n as int, (k@, v)) =~= before.push((k@, v)));
                    }
                }
                self.value_mut(n)
            },
        }
    }

    /// Put `v` under `k`.
    pub fn insert(&mut self, k: K, v: V)
        requires
            old(self).wf(),
        ensures
            final(self)@ == put(old(self)@, k@, v),
            final(self).wf(),
    {
        let ghost before = self@;
        proof {
            lemma_at(before, k@);
            law_put_then_get(before, k@, v);
        }
        match self.find(&k) {
            Some(i) => {
                self.rows.set(i, (k, v));
                assert(self@ =~= before.update(i as int, (k@, v)));
            },
            None => {
                self.rows.push((k, v));
                assert(self@ =~= before.push((k@, v)));
            },
        }
    }

    /// Drop the row of `k`, if there is one.
    pub fn remove(&mut self, k: &K)
        requires
            old(self).wf(),
        ensures
            final(self)@ == without(old(self)@, k@),
            final(self).wf(),
    {
        let ghost before = self@;
        match self.find(k) {
            Some(i) => {
                let _ = self.rows.remove(i);
                assert(self@ =~= before.remove(i as int));
                assert forall|a: int, b: int| 0 <= a < b < self@.len() implies (
                #[trigger] self@[a]).0 != (#[trigger] self@[b]).0 by {
                    let x = if a < i { a } else { a + 1 };
                    let y = if b < i { b } else { b + 1 };
                    assert(before[x].0 != before[y].0);
                }
            },
            None => {},
        }
    }
}

impl<V> Table<String, V> {
    /// Where the key `k` stands.
    pub fn find_text(&self, k: &str) -> (r: Option<usize>)
        ensures
            match r {
                Some(i) => i < self@.len() && at(self@, k@) == Some(i as int),
                None => at(self@, k@) is None,
            },
    {
        let ghost f = |r: (Seq<char>, V)| r.0 == k@;
        let mut i: usize = 0;
        while i < self.rows.len()
            invariant
                i <= self.rows@.len(),
                f == |r: (Seq<char>, V)| r.0 == k@,
                forall|j: int| 0 <= j < i ==> !f(#[trigger] self@[j]),
            decreases self.rows@.len() - i,
        {
            assert(self@[i as int] == row_view(self.rows@[i as int]));
            if text::same_text(self.rows[i].0.as_str(), k) {
                proof {
                    seqs::lemma_is_first(self@, f, i as int);
                }
                return Some(i);
            }
            i += 1;
        }
        proof {
            seqs::lemma_is_none(self@, f);
        }
        None
    }

    /// The value of the key `k`.
    pub fn get_text(&self, k: &str) -> (r: Option<&V>)
        ensures
            match r {
                Some(v) => get(self@, k@) == Some(*v),
                None => get(self@, k@) is None,
            },
    {
        match self.find_text(k) {
            Some(i) => {
                assert(self@[i as int] == row_view(self.rows@[i as int]));
                Some(&self.rows[i].1)
            },
            None => None,
        }
    }
}

/// The value in a row whose key stands in none before it is the one found under the key.
pub proof fn lemma_nth<A, V>(rows: Seq<(A, V)>, i: int)
    requires
        0 <= i < rows.len(),
        forall|j: int| 0 <= j < i ==> (#[trigger] rows[j]).0 != rows[i].0,
    ensures
        get(rows, rows[i].0) == Some(rows[i].1),
{
    lemma_is_at(rows, rows[i].0, i);
}

/// What was removed is gone, and every other key keeps its value.
pub proof fn law_remove_then_get<A, V>(rows: Seq<(A, V)>, k: A)
    requires
        distinct(rows),
    ensures
        get(without(rows, k), k) is None,
        forall|j: A| j != k ==> #[trigger] get(without(rows, k), j) == get(rows, j),
        distinct(without(rows, k)),
{
    let after = without(rows, k);
    lemma_at(rows, k);
    lemma_at(after, k);
    if let Some(i) = at(rows, k) {
        assert forall|n: int| 0 <= n < after.len() implies (#[trigger] after[n]).0 != k by {
            if n < i {
                assert(after[n] == rows[n]);
            } else {
                assert(after[n] == rows[n + 1]);
                assert(rows[i].0 != rows[n + 1].0);
            }
        }
        assert forall|m: int, n: int| 0 <= m < n < after.len() implies (#[trigger] after[m]).0 != (
        #[trigger] after[n]).0 by {
            let x = if m < i {
                m
            } else {
                m + 1
            };
            let y = if n < i {
                n
            } else {
                n + 1
            };
            assert(after[m] == rows[x] && after[n] == rows[y]);
        }
        assert forall|j: A| j != k implies #[trigger] get(after, j) == get(rows, j) by {
            lemma_at(rows, j);
            lemma_at(after, j);
            if let Some(n) = at(rows, j) {
                let m = if n < i {
                    n
                } else {
                    n - 1
                };
                assert(n != i);
                assert(after[m] == rows[n]);
                lemma_at_row(after, m);
            } else if let Some(m) = at(after, j) {
                let n = if m < i {
                    m
                } else {
                    m + 1
                };
                assert(after[m] == rows[n]);
            }
        }
    }
}

} // verus!
