//! A map keyed by strings, kept in the order of its keys.

use vstd::prelude::*;

use crate::text::chars_of;

verus! {

broadcast use vstd::string::group_string_axioms;

/// Whether one text comes strictly before another: character by character, by
/// their positions in Unicode, and a text before what extends it.
pub open spec fn precedes(a: Seq<char>, b: Seq<char>) -> bool
    decreases a.len(),
{
    if b.len() == 0 {
        false
    } else if a.len() == 0 {
        true
    } else if a[0] != b[0] {
        a[0] < b[0]
    } else {
        precedes(a.skip(1), b.skip(1))
    }
}

/// Texts in strictly ascending order.
pub open spec fn ascending(keys: Seq<Seq<char>>) -> bool {
    forall|i: int, j: int|
        0 <= i < j < keys.len() ==> precedes(#[trigger] keys[i], #[trigger] keys[j])
}

/// Rows that list a map completely, in the order of its keys.
pub open spec fn lists<V>(rows: Seq<(Seq<char>, V)>, m: Map<Seq<char>, V>) -> bool {
    &&& ascending(rows.map_values(|r: (Seq<char>, V)| r.0))
    &&& forall|i: int|
        0 <= i < rows.len() ==> m.contains_key(#[trigger] rows[i].0) && m[rows[i].0] == rows[i].1
    &&& forall|k: Seq<char>| #[trigger]
        m.contains_key(k) ==> exists|i: int| 0 <= i < rows.len() && rows[i].0 == k
}

/// No text comes before itself.
pub proof fn lemma_precedes_irreflexive(a: Seq<char>)
    ensures
        !precedes(a, a),
    decreases a.len(),
{
    if a.len() > 0 {
        lemma_precedes_irreflexive(a.skip(1));
    }
}

pub proof fn lemma_precedes_transitive(a: Seq<char>, b: Seq<char>, c: Seq<char>)
    requires
        precedes(a, b),
        precedes(b, c),
    ensures
        precedes(a, c),
    decreases a.len(),
{
    if a.len() > 0 && a[0] == b[0] && b[0] == c[0] {
        lemma_precedes_transitive(a.skip(1), b.skip(1), c.skip(1));
    }
}

/// Of two different texts, one comes before the other.
pub proof fn lemma_precedes_total(a: Seq<char>, b: Seq<char>)
    ensures
        a == b || precedes(a, b) || precedes(b, a),
    decreases a.len(),
{
    if a.len() > 0 && b.len() > 0 && a[0] == b[0] {
        lemma_precedes_total(a.skip(1), b.skip(1));
        if a.skip(1) == b.skip(1) {
            assert(a == seq![a[0]] + a.skip(1));
            assert(b == seq![b[0]] + b.skip(1));
        }
    } else if a.len() == 0 && b.len() == 0 {
        assert(a == b);
    }
}

/// Texts are ordered by the first character in which they differ; a text comes before
/// what extends it.
pub proof fn law_the_first_difference_decides(a: Seq<char>, b: Seq<char>)
    ensures
        precedes(a, b) <==> exists|n: int|
            {
                &&& 0 <= n <= a.len()
                &&& n < b.len()
                &&& #[trigger] a.take(n) == b.take(n)
                &&& n == a.len() || a[n] < b[n]
            },
    decreases a.len(),
{
    if a.len() > 0 && b.len() > 0 && a[0] == b[0] {
        let x = a.skip(1);
        let y = b.skip(1);
        law_the_first_difference_decides(x, y);
        if precedes(x, y) {
            let n = choose|n: int|
                {
                    &&& 0 <= n <= x.len()
                    &&& n < y.len()
                    &&& #[trigger] x.take(n) == y.take(n)
                    &&& n == x.len() || x[n] < y[n]
                };
            assert(a.take(n + 1) == seq![a[0]] + x.take(n));
            assert(b.take(n + 1) == seq![b[0]] + y.take(n));
            assert(a.take(n + 1) == b.take(n + 1));
        }
        if exists|n: int|
            {
                &&& 0 <= n <= a.len()
                &&& n < b.len()
                &&& #[trigger] a.take(n) == b.take(n)
                &&& n == a.len() || a[n] < b[n]
            } {
            let n = choose|n: int|
                {
                    &&& 0 <= n <= a.len()
                    &&& n < b.len()
                    &&& #[trigger] a.take(n) == b.take(n)
                    &&& n == a.len() || a[n] < b[n]
                };
            assert(n > 0);
            assert(x.take(n - 1) == a.take(n).skip(1));
            assert(y.take(n - 1) == b.take(n).skip(1));
            assert(x.take(n - 1) == y.take(n - 1));
        }
    } else if b.len() > 0 {
        assert(a.take(0) == b.take(0));
        if !precedes(a, b) && a.len() > 0 {
            assert forall|n: int|
                {
                    &&& 0 <= n <= a.len()
                    &&& n < b.len()
                    &&& #[trigger] a.take(n) == b.take(n)
                } implies n == 0 by {
                if n > 0 {
                    assert(a.take(n)[0] == b.take(n)[0]);
                }
            }
        }
    }
}

/// Whether one text comes strictly before another.
pub fn comes_before(a: &str, b: &str) -> (r: bool)
    ensures
        r == precedes(a@, b@),
{
    let x = chars_of(a);
    let y = chars_of(b);
    let mut n: usize = 0;
    assert(x@.skip(0) == x@ && y@.skip(0) == y@);
    while n < x.len() && n < y.len() && x[n] == y[n]
        invariant
            n <= x@.len(),
            n <= y@.len(),
            precedes(x@, y@) == precedes(x@.skip(n as int), y@.skip(n as int)),
        decreases x@.len() - n,
    {
        assert(x@.skip(n as int).skip(1) == x@.skip(n + 1));
        assert(y@.skip(n as int).skip(1) == y@.skip(n + 1));
        n = n + 1;
    }
    if n == y.len() {
        false
    } else if n == x.len() {
        true
    } else {
        x[n] < y[n]
    }
}

/// The keys of some rows.
spec fn keys_of<V>(rows: Seq<(String, V)>) -> Seq<Seq<char>> {
    rows.map_values(|r: (String, V)| r.0@)
}

spec fn has_key<V>(rows: Seq<(String, V)>, k: Seq<char>, i: int) -> bool {
    0 <= i < rows.len() && rows[i].0@ == k
}

spec fn map_of<V>(rows: Seq<(String, V)>) -> Map<Seq<char>, V> {
    Map::new(
        |k: Seq<char>| exists|i: int| has_key(rows, k, i),
        |k: Seq<char>| rows[choose|i: int| has_key(rows, k, i)].1,
    )
}

/// A map from strings to values.
pub struct Table<V> {
    rows: Vec<(String, V)>,
}

impl<V> View for Table<V> {
    type V = Map<Seq<char>, V>;

    closed spec fn view(&self) -> Map<Seq<char>, V> {
        map_of(self.rows@)
    }
}

proof fn lemma_row<V>(rows: Seq<(String, V)>, i: int)
    requires
        ascending(keys_of(rows)),
        0 <= i < rows.len(),
    ensures
        map_of(rows).contains_key(rows[i].0@),
        map_of(rows)[rows[i].0@] == rows[i].1,
{
    let k = rows[i].0@;
    assert(has_key(rows, k, i));
    let j = choose|j: int| has_key(rows, k, j);
    lemma_precedes_irreflexive(k);
    assert(keys_of(rows)[i] == k && keys_of(rows)[j] == k);
    if i < j {
        assert(precedes(keys_of(rows)[i], keys_of(rows)[j]));
    } else if j < i {
        assert(precedes(keys_of(rows)[j], keys_of(rows)[i]));
    }
}

/// A row put in its place in the order adds its key, or takes the place of the
/// row that had it.
proof fn lemma_put<V>(before: Seq<(String, V)>, after: Seq<(String, V)>, n: int, skip: int)
    requires
        ascending(keys_of(before)),
        ascending(keys_of(after)),
        0 <= n < after.len(),
        skip == 0 || skip == 1,
        n + skip <= before.len(),
        after == before.take(n) + seq![after[n]] + before.skip(n + skip),
        skip == 1 ==> before[n].0@ == after[n].0@,
    ensures
        map_of(after) == map_of(before).insert(after[n].0@, after[n].1),
{
    let k = after[n].0@;
    let grown = map_of(before).insert(k, after[n].1);
    assert forall|x: Seq<char>| map_of(after).contains_key(x) == #[trigger] grown.contains_key(
        x,
    ) by {
        if map_of(after).contains_key(x) {
            let i = choose|i: int| has_key(after, x, i);
            if i < n {
                assert(has_key(before, x, i));
            } else if i > n {
                assert(after[i] == before[i - 1 + skip]);
                assert(has_key(before, x, i - 1 + skip));
            }
        }
        if grown.contains_key(x) {
            if x == k {
                assert(has_key(after, x, n));
            } else {
                let i = choose|i: int| has_key(before, x, i);
                if i < n {
                    assert(has_key(after, x, i));
                } else {
                    assert(after[i + 1 - skip] == before[i]);
                    assert(has_key(after, x, i + 1 - skip));
                }
            }
        }
    }
    assert forall|x: Seq<char>| map_of(after).contains_key(x) implies #[trigger] map_of(after)[x]
        == grown[x] by {
        let i = choose|i: int| has_key(after, x, i);
        lemma_row(after, i);
        lemma_row(after, n);
        if x != k {
            if i < n {
                lemma_row(before, i);
            } else {
                assert(after[i] == before[i - 1 + skip]);
                lemma_row(before, i - 1 + skip);
            }
        }
    }
    assert(map_of(after) =~= grown);
}

proof fn lemma_drop<V>(before: Seq<(String, V)>, after: Seq<(String, V)>, n: int)
    requires
        ascending(keys_of(before)),
        ascending(keys_of(after)),
        0 <= n < before.len(),
        after == before.remove(n),
    ensures
        map_of(after) == map_of(before).remove(before[n].0@),
{
    let k = before[n].0@;
    let less = map_of(before).remove(k);
    lemma_precedes_irreflexive(k);
    assert forall|x: Seq<char>| map_of(after).contains_key(x) == #[trigger] less.contains_key(
        x,
    ) by {
        if map_of(after).contains_key(x) {
            let i = choose|i: int| has_key(after, x, i);
            let j = if i < n {
                i
            } else {
                i + 1
            };
            assert(after[i] == before[j]);
            assert(has_key(before, x, j));
            assert(keys_of(before)[j] == x && keys_of(before)[n] == k);
            if j < n {
                assert(precedes(keys_of(before)[j], keys_of(before)[n]));
            } else {
                assert(precedes(keys_of(before)[n], keys_of(before)[j]));
            }
        }
        if less.contains_key(x) {
            let i = choose|i: int| has_key(before, x, i);
            let j = if i < n {
                i
            } else {
                i - 1
            };
            assert(after[j] == before[i]);
            assert(has_key(after, x, j));
        }
    }
    assert forall|x: Seq<char>| map_of(after).contains_key(x) implies #[trigger] map_of(after)[x]
        == less[x] by {
        let i = choose|i: int| has_key(after, x, i);
        lemma_row(after, i);
        let j = if i < n {
            i
        } else {
            i + 1
        };
        assert(after[i] == before[j]);
        lemma_row(before, j);
        assert(less.contains_key(x));
    }
    assert(map_of(after) =~= less);
}

/// Rows stay in order when one comes between those before it and those after.
proof fn lemma_ascending_put(keys: Seq<Seq<char>>, n: int, skip: int, k: Seq<char>)
    requires
        ascending(keys),
        0 <= n,
        skip == 0 || skip == 1,
        n + skip <= keys.len(),
        forall|i: int| 0 <= i < n ==> precedes(#[trigger] keys[i], k),
        forall|i: int| n + skip <= i < keys.len() ==> precedes(k, #[trigger] keys[i]),
    ensures
        ascending(keys.take(n) + seq![k] + keys.skip(n + skip)),
{
    let after = keys.take(n) + seq![k] + keys.skip(n + skip);
    assert forall|i: int, j: int| 0 <= i < j < after.len() implies precedes(
        #[trigger] after[i],
        #[trigger] after[j],
    ) by {
        let p = if i <= n {
            i
        } else {
            i - 1 + skip
        };
        let q = if j <= n {
            j
        } else {
            j - 1 + skip
        };
        assert(i != n ==> after[i] == keys[p]);
        assert(j != n ==> after[j] == keys[q]);
    }
}

impl<V> Table<V> {
    #[verifier::type_invariant]
    spec fn in_order(self) -> bool {
        ascending(keys_of(self.rows@))
    }

    /// A table without rows.
    pub fn new() -> (t: Table<V>)
        ensures
            t@ == Map::<Seq<char>, V>::empty(),
    {
        let t = Table { rows: Vec::new() };
        assert(t@ =~= Map::<Seq<char>, V>::empty()) by {
            assert forall|k: Seq<char>| !(#[trigger] t@.contains_key(k)) by {
                assert(forall|i: int| !has_key(t.rows@, k, i));
            }
        }
        t
    }

    /// How many rows come before a key, and whether the next one has it.
    fn place(&self, key: &str) -> (r: (usize, bool))
        ensures
            r.0 <= self.rows@.len(),
            r.1 ==> r.0 < self.rows@.len() && self.rows@[r.0 as int].0@ == key@,
            forall|i: int| 0 <= i < r.0 ==> precedes(#[trigger] keys_of(self.rows@)[i], key@),
            forall|i: int|
                r.0 <= i < self.rows@.len() && !(r.1 && i == r.0) ==> precedes(
                    key@,
                    #[trigger] keys_of(self.rows@)[i],
                ),
            r.1 == self@.contains_key(key@),
            r.1 ==> self@[key@] == self.rows@[r.0 as int].1,
    {
        proof {
            use_type_invariant(self);
        }
        let ghost keys = keys_of(self.rows@);
        let mut n: usize = 0;
        while n < self.rows.len() && comes_before(self.rows[n].0.as_str(), key)
            invariant
                n <= self.rows@.len(),
                keys == keys_of(self.rows@),
                forall|i: int| 0 <= i < n ==> precedes(#[trigger] keys[i], key@),
            decreases self.rows@.len() - n,
        {
            assert(keys[n as int] == self.rows@[n as int].0@);
            n = n + 1;
        }
        let found = n < self.rows.len() && self.rows[n].0 == key.to_owned();
        proof {
            if n < self.rows@.len() {
                assert(keys[n as int] == self.rows@[n as int].0@);
                lemma_precedes_total(keys[n as int], key@);
                assert forall|i: int| n <= i < self.rows@.len() && !(found && i == n) implies precedes(
                    key@,
                    #[trigger] keys[i],
                ) by {
                    if i > n {
                        assert(precedes(keys[n as int], keys[i]));
                        if !found {
                            lemma_precedes_transitive(key@, keys[n as int], keys[i]);
                        }
                    }
                }
            }
            if found {
                lemma_row(self.rows@, n as int);
            } else {
                lemma_precedes_irreflexive(key@);
                assert forall|i: int| !has_key(self.rows@, key@, i) by {
                    if has_key(self.rows@, key@, i) {
                        assert(keys[i] == key@);
                    }
                }
            }
        }
        (n, found)
    }

    pub fn contains_key(&self, key: &str) -> (r: bool)
        ensures
            r == self@.contains_key(key@),
    {
        self.place(key).1
    }

    pub fn get(&self, key: &str) -> (r: Option<&V>)
        ensures
            match r {
                Some(v) => self@.contains_key(key@) && *v == self@[key@],
                None => !self@.contains_key(key@),
            },
    {
        let (n, found) = self.place(key);
        if found {
            Some(&self.rows[n].1)
        } else {
            None
        }
    }

    /// Adds a row, or replaces the one that has the key.
    pub fn insert(&mut self, key: String, value: V)
        ensures
            final(self)@ == old(self)@.insert(key@, value),
    {
        let (n, found) = self.place(key.as_str());
        proof {
            use_type_invariant(&*self);
        }
        let ghost before = self.rows@;
        let ghost skip = if found {
            1int
        } else {
            0int
        };
        let mut rows: Vec<(String, V)> = Vec::new();
        std::mem::swap(&mut rows, &mut self.rows);
        if found {
            rows.remove(n);
        }
        rows.insert(n, (key, value));
        proof {
            let row = (key, value);
            assert(rows@ == before.take(n as int) + seq![row] + before.skip(n + skip));
            lemma_ascending_put(keys_of(before), n as int, skip, key@);
            assert(keys_of(rows@) == keys_of(before).take(n as int) + seq![key@] + keys_of(
                before,
            ).skip(n + skip));
            lemma_put(before, rows@, n as int, skip);
        }
        self.rows = rows;
    }

    /// Takes the row of a key out.
    pub fn remove(&mut self, key: &str) -> (r: Option<V>)
        ensures
            final(self)@ == old(self)@.remove(key@),
            match r {
                Some(v) => old(self)@.contains_key(key@) && v == old(self)@[key@],
                None => !old(self)@.contains_key(key@),
            },
    {
        let (n, found) = self.place(key);
        proof {
            use_type_invariant(&*self);
        }
        let ghost before = self.rows@;
        if !found {
            assert(self@.remove(key@) =~= self@);
            return None;
        }
        let mut rows: Vec<(String, V)> = Vec::new();
        std::mem::swap(&mut rows, &mut self.rows);
        let (_, value) = rows.remove(n);
        proof {
            let keys = keys_of(before);
            assert(keys_of(rows@) == keys.remove(n as int));
            assert forall|i: int, j: int| 0 <= i < j < rows@.len() implies precedes(
                #[trigger] keys_of(rows@)[i],
                #[trigger] keys_of(rows@)[j],
            ) by {
                let p = if i < n {
                    i
                } else {
                    i + 1
                };
                let q = if j < n {
                    j
                } else {
                    j + 1
                };
                assert(keys_of(rows@)[i] == keys[p] && keys_of(rows@)[j] == keys[q]);
            }
            lemma_drop(before, rows@, n as int);
        }
        self.rows = rows;
        Some(value)
    }

    /// Every row, in the order of the keys.
    pub fn rows(&self) -> (r: Vec<(&String, &V)>)
        ensures
            lists(r@.map_values(|p: (&String, &V)| (p.0@, *p.1)), self@),
    {
        proof {
            use_type_invariant(self);
        }
        let mut r: Vec<(&String, &V)> = Vec::new();
        for i in 0..self.rows.len()
            invariant
                r@.len() == i,
                forall|j: int|
                    0 <= j < i ==> *(#[trigger] r@[j]).0 == self.rows@[j].0 && *r@[j].1
                        == self.rows@[j].1,
        {
            r.push((&self.rows[i].0, &self.rows[i].1));
        }
        proof {
            let seen = r@.map_values(|p: (&String, &V)| (p.0@, *p.1));
            assert(seen.map_values(|r: (Seq<char>, V)| r.0) == keys_of(self.rows@));
            assert forall|i: int| 0 <= i < seen.len() implies self@.contains_key(
                #[trigger] seen[i].0,
            ) && self@[seen[i].0] == seen[i].1 by {
                lemma_row(self.rows@, i);
            }
            assert forall|k: Seq<char>| #[trigger] self@.contains_key(k) implies exists|i: int|
                0 <= i < seen.len() && seen[i].0 == k by {
                let i = choose|i: int| has_key(self.rows@, k, i);
                assert(seen[i].0 == k);
            }
        }
        r
    }
}

/// Rows that list a map are in the order of their keys, hold what the map holds, and
/// leave nothing out; so a map has one such list.
pub proof fn law_a_map_has_one_list<V>(
    a: Seq<(Seq<char>, V)>,
    b: Seq<(Seq<char>, V)>,
    m: Map<Seq<char>, V>,
)
    requires
        lists(a, m),
    ensures
        forall|i: int, j: int|
            0 <= i < j < a.len() ==> precedes((#[trigger] a[i]).0, (#[trigger] a[j]).0),
        forall|i: int|
            0 <= i < a.len() ==> m.contains_key((#[trigger] a[i]).0) && m[a[i].0] == a[i].1,
        forall|k: Seq<char>| #[trigger]
            m.contains_key(k) ==> exists|i: int| 0 <= i < a.len() && (#[trigger] a[i]).0 == k,
        lists(b, m) ==> a == b,
{
    lemma_in_order(a, m);
    if lists(b, m) {
        lemma_in_order(b, m);
        if a.len() < b.len() {
            lemma_same_rows(a, b, m, a.len() as int);
            let k = b[a.len() as int].0;
            assert(m.contains_key(k));
            let i = choose|i: int| 0 <= i < a.len() && a[i].0 == k;
            assert(b[i].0 == k);
            lemma_precedes_irreflexive(k);
        } else {
            lemma_same_rows(a, b, m, b.len() as int);
            if b.len() < a.len() {
                let k = a[b.len() as int].0;
                assert(m.contains_key(k));
                let i = choose|i: int| 0 <= i < b.len() && b[i].0 == k;
                assert(a[i].0 == k);
                lemma_precedes_irreflexive(k);
            }
        }
    }
}

proof fn lemma_in_order<V>(rows: Seq<(Seq<char>, V)>, m: Map<Seq<char>, V>)
    requires
        lists(rows, m),
    ensures
        forall|i: int, j: int|
            0 <= i < j < rows.len() ==> precedes((#[trigger] rows[i]).0, (#[trigger] rows[j]).0),
{
    let keys = rows.map_values(|r: (Seq<char>, V)| r.0);
    assert forall|i: int, j: int| 0 <= i < j < rows.len() implies precedes(
        (#[trigger] rows[i]).0,
        (#[trigger] rows[j]).0,
    ) by {
        assert(precedes(keys[i], keys[j]));
    }
}

proof fn lemma_same_rows<V>(
    a: Seq<(Seq<char>, V)>,
    b: Seq<(Seq<char>, V)>,
    m: Map<Seq<char>, V>,
    n: int,
)
    requires
        lists(a, m),
        lists(b, m),
        0 <= n <= a.len(),
        n <= b.len(),
    ensures
        forall|i: int| 0 <= i < n ==> #[trigger] a[i] == b[i],
    decreases n,
{
    if n > 0 {
        let last = n - 1;
        lemma_same_rows(a, b, m, last);
        lemma_in_order(a, m);
        lemma_in_order(b, m);
        let x = a[last].0;
        let y = b[last].0;
        assert(m.contains_key(x) && m.contains_key(y));
        let j = choose|j: int| 0 <= j < b.len() && b[j].0 == x;
        let i = choose|i: int| 0 <= i < a.len() && a[i].0 == y;
        lemma_precedes_irreflexive(x);
        lemma_precedes_irreflexive(y);
        if j < last {
            assert(a[j] == b[j]);
        }
        if i < last {
            assert(a[i] == b[i]);
        }
        if j > last && i > last {
            lemma_precedes_transitive(x, y, x);
        }
        assert(x == y);
    }
}

} // verus!
