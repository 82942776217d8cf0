//! A table keyed by text, kept in the order of its keys.
//!
//! No key occurs twice. Keys are ordered character by character, by code
//! point, which is also the order of their UTF-8 bytes.

use vstd::prelude::*;
use crate::text::{chars_of, same};

verus! {

// ---------------------------------------------------------------------
// The order of texts
// ---------------------------------------------------------------------

/// Whether `a` comes before `b`.
pub open spec fn before(a: Seq<char>, b: Seq<char>) -> bool
    decreases a.len(),
{
    if b.len() == 0 {
        false
    } else if a.len() == 0 {
        true
    } else if a[0] != b[0] {
        a[0] < b[0]
    } else {
        before(a.skip(1), b.skip(1))
    }
}

/// Of two texts that differ, exactly one comes before the other.
pub proof fn lemma_before_total(a: Seq<char>, b: Seq<char>)
    ensures
        before(a, b) ==> !before(b, a) && a != b,
        a != b ==> before(a, b) || before(b, a),
    decreases a.len(),
{
    if a.len() > 0 && b.len() > 0 && a[0] == b[0] {
        lemma_before_total(a.skip(1), b.skip(1));
        if a.skip(1) == b.skip(1) {
            assert(a == seq![a[0]] + a.skip(1));
            assert(b == seq![b[0]] + b.skip(1));
        }
    } else if a.len() == 0 && b.len() == 0 {
        assert(a == b);
    }
}

/// What comes before something comes before all that follows it.
pub proof fn lemma_before_transitive(a: Seq<char>, b: Seq<char>, c: Seq<char>)
    requires
        before(a, b),
        before(b, c),
    ensures
        before(a, c),
    decreases a.len(),
{
    if a.len() > 0 && a[0] == b[0] && b[0] == c[0] {
        lemma_before_transitive(a.skip(1), b.skip(1), c.skip(1));
    }
}

/// Whether `a` comes before `b`.
fn is_before(a: &str, b: &str) -> (res: bool)
    ensures
        res == before(a@, b@),
{
    let x = chars_of(a);
    let y = chars_of(b);
    let mut i: usize = 0;
    proof {
        assert(x@.skip(0) == x@);
        assert(y@.skip(0) == y@);
    }
    while i < x.len() && i < y.len() && x[i] == y[i]
        invariant
            i <= x.len(),
            i <= y.len(),
            before(x@, y@) == before(x@.skip(i as int), y@.skip(i as int)),
        decreases x.len() - i,
    {
        proof {
            assert(x@.skip(i as int).skip(1) == x@.skip(i + 1));
            assert(y@.skip(i as int).skip(1) == y@.skip(i + 1));
        }
        i += 1;
    }
    if i == y.len() {
        false
    } else if i == x.len() {
        true
    } else {
        x[i] < y[i]
    }
}

/// Whether each text comes before all that follow it.
pub open spec fn increasing(keys: Seq<Seq<char>>) -> bool {
    forall|i: int, j: int|
        0 <= i < j < keys.len() ==> before(#[trigger] keys[i], #[trigger] keys[j])
}

/// Whether `keys` lists exactly the texts in `dom`, in order.
pub open spec fn lists(keys: Seq<Seq<char>>, dom: Set<Seq<char>>) -> bool {
    &&& increasing(keys)
    &&& forall|k: Seq<char>| keys.contains(k) <==> dom.contains(k)
}

/// The texts in `dom`, in order.
pub open spec fn ordered(dom: Set<Seq<char>>) -> Seq<Seq<char>> {
    choose|keys: Seq<Seq<char>>| lists(keys, dom)
}

/// There is only one way to list texts in order.
pub proof fn lemma_lists_unique(a: Seq<Seq<char>>, b: Seq<Seq<char>>, dom: Set<Seq<char>>)
    requires
        lists(a, dom),
        lists(b, dom),
    ensures
        a == b,
    decreases a.len(),
{
    if a.len() == 0 {
        if b.len() > 0 {
            assert(b.contains(b[0]));
        }
        assert(a == b);
    } else if b.len() == 0 {
        assert(a.contains(a[0]));
    } else {
        assert(a.contains(a[0]) && b.contains(b[0]));
        assert(b.contains(a[0]) && a.contains(b[0]));
        if a[0] != b[0] {
            let i = choose|i: int| 0 <= i < b.len() && b[i] == a[0];
            let j = choose|j: int| 0 <= j < a.len() && a[j] == b[0];
            assert(before(b[0], b[i]));
            assert(before(a[0], a[j]));
            lemma_before_total(a[0], b[0]);
        }
        let rest = dom.remove(a[0]);
        assert forall|k: Seq<char>| a.skip(1).contains(k) <==> rest.contains(k) by {
            lemma_skip_first(a, dom, k);
        }
        assert forall|k: Seq<char>| b.skip(1).contains(k) <==> rest.contains(k) by {
            lemma_skip_first(b, dom, k);
        }
        lemma_lists_unique(a.skip(1), b.skip(1), rest);
        assert(a == seq![a[0]] + a.skip(1));
        assert(b == seq![b[0]] + b.skip(1));
    }
}

/// What follows the first key is every other key.
proof fn lemma_skip_first(keys: Seq<Seq<char>>, dom: Set<Seq<char>>, k: Seq<char>)
    requires
        lists(keys, dom),
        keys.len() > 0,
    ensures
        keys.skip(1).contains(k) <==> dom.remove(keys[0]).contains(k),
{
    if keys.skip(1).contains(k) {
        let i = choose|i: int| 0 <= i < keys.skip(1).len() && keys.skip(1)[i] == k;
        assert(keys[i + 1] == k);
        assert(before(keys[0], keys[i + 1]));
        lemma_before_total(keys[0], keys[i + 1]);
    }
    if dom.remove(keys[0]).contains(k) {
        assert(keys.contains(k));
        let i = choose|i: int| 0 <= i < keys.len() && keys[i] == k;
        assert(keys.skip(1)[i - 1] == k);
    }
}

/// The listing of `dom` is the one there is.
pub proof fn lemma_ordered(keys: Seq<Seq<char>>, dom: Set<Seq<char>>)
    requires
        lists(keys, dom),
    ensures
        ordered(dom) == keys,
{
    lemma_lists_unique(ordered(dom), keys, dom);
}

// ---------------------------------------------------------------------
// The table
// ---------------------------------------------------------------------

/// A table from texts to values.
#[derive(Clone, Debug)]
pub struct Table<V> {
    entries: Vec<(String, V)>,
}

impl<V: View> View for Table<V> {
    type V = Map<Seq<char>, V::V>;

    closed spec fn view(&self) -> Map<Seq<char>, V::V> {
        Map::new(|k: Seq<char>| self.keys().contains(k), |k: Seq<char>| self.entries@[self.place_of(k)].1@)
    }
}

impl<V> Table<V> {
    /// The keys, in order.
    pub closed spec fn keys(self) -> Seq<Seq<char>> {
        self.entries@.map_values(|e: (String, V)| e.0@)
    }

    /// Where the entry with this key stands.
    closed spec fn place_of(self, key: Seq<char>) -> int {
        choose|i: int| 0 <= i < self.keys().len() && self.keys()[i] == key
    }

    /// No key occurs twice, and the keys are in order.
    pub closed spec fn wf(self) -> bool {
        increasing(self.keys())
    }

    /// Whether `value` is one of the values.
    pub closed spec fn holds(self, value: V) -> bool {
        exists|i: int| 0 <= i < self.entries@.len() && (#[trigger] self.entries@[i]).1 == value
    }
}

impl<V: View> Table<V> {
    /// The entry at `i` is the one with its key.
    proof fn lemma_at(self, i: int)
        requires
            self.wf(),
            0 <= i < self.entries@.len(),
        ensures
            self.keys()[i] == self.entries@[i].0@,
            self@.dom().contains(self.entries@[i].0@),
            self@[self.entries@[i].0@] == self.entries@[i].1@,
            self.holds(self.entries@[i].1),
    {
        let key = self.entries@[i].0@;
        assert(self.keys()[i] == key);
        assert(self.keys().contains(key));
        let j = self.place_of(key);
        if j < i {
            assert(before(self.keys()[j], self.keys()[i]));
            lemma_before_total(self.keys()[j], self.keys()[i]);
        } else if i < j {
            assert(before(self.keys()[i], self.keys()[j]));
            lemma_before_total(self.keys()[i], self.keys()[j]);
        }
    }

    /// A key in the table has an entry.
    proof fn lemma_entry(self, key: Seq<char>) -> (i: int)
        requires
            self.wf(),
            self@.dom().contains(key),
        ensures
            0 <= i < self.entries@.len(),
            self.entries@[i].0@ == key,
            self@[key] == self.entries@[i].1@,
    {
        let i = choose|i: int| 0 <= i < self.keys().len() && self.keys()[i] == key;
        self.lemma_at(i);
        i
    }

    /// The keys are the listing of the domain.
    pub proof fn lemma_keys(self)
        requires
            self.wf(),
        ensures
            self.keys() == ordered(self@.dom()),
            lists(self.keys(), self@.dom()),
    {
        assert(lists(self.keys(), self@.dom()));
        lemma_ordered(self.keys(), self@.dom());
    }

    /// An empty table.
    pub fn new() -> (res: Self)
        ensures
            res.wf(),
            res@ == Map::<Seq<char>, V::V>::empty(),
            forall|v: V| !res.holds(v),
    {
        let res = Table { entries: Vec::new() };
        proof {
            assert(res@ == Map::<Seq<char>, V::V>::empty());
        }
        res
    }

    /// How many entries there are.
    pub fn len(&self) -> (res: usize)
        ensures
            res == self.keys().len(),
    {
        self.entries.len()
    }

    /// Whether there are none.
    pub fn is_empty(&self) -> (res: bool)
        ensures
            res == (self.keys().len() == 0),
    {
        self.entries.len() == 0
    }

    /// The key at `i`, counted in order.
    pub fn key_at(&self, i: usize) -> (res: &str)
        requires
            i < self.keys().len(),
        ensures
            res@ == self.keys()[i as int],
    {
        self.entries[i].0.as_str()
    }

    /// The first place whose key does not come before `key`.
    fn place(&self, key: &str) -> (res: usize)
        requires
            self.wf(),
        ensures
            res <= self.entries@.len(),
            forall|i: int| 0 <= i < res ==> before(#[trigger] self.entries@[i].0@, key@),
            res < self.entries@.len() ==> !before(self.entries@[res as int].0@, key@),
    {
        let mut i: usize = 0;
        while i < self.entries.len() && is_before(self.entries[i].0.as_str(), key)
            invariant
                i <= self.entries@.len(),
                forall|j: int| 0 <= j < i ==> before(#[trigger] self.entries@[j].0@, key@),
            decreases self.entries.len() - i,
        {
            i += 1;
        }
        i
    }

    /// Where the entry with this key stands.
    fn find(&self, key: &str) -> (res: Option<usize>)
        requires
            self.wf(),
        ensures
            match res {
                Some(i) => i < self.entries@.len() && self.entries@[i as int].0@ == key@
                    && self@.dom().contains(key@) && self@[key@] == self.entries@[i as int].1@,
                None => !self@.dom().contains(key@),
            },
    {
        let i = self.place(key);
        if i < self.entries.len() && same(self.entries[i].0.as_str(), key) {
            proof {
                self.lemma_at(i as int);
            }
            return Some(i);
        }
        proof {
            if self@.dom().contains(key@) {
                let j = self.lemma_entry(key@);
                lemma_before_total(key@, key@);
                if j < i {
                    assert(before(self.entries@[j].0@, key@));
                } else if j > i {
                    assert(self.keys()[i as int] == self.entries@[i as int].0@);
                    assert(self.keys()[j] == key@);
                    assert(before(self.keys()[i as int], self.keys()[j]));
                }
            }
        }
        None
    }

    /// The value for `key`.
    pub fn get(&self, key: &str) -> (res: Option<&V>)
        requires
            self.wf(),
        ensures
            match res {
                Some(value) => self@.dom().contains(key@) && self@[key@] == value@ && self.holds(
                    *value,
                ),
                None => !self@.dom().contains(key@),
            },
    {
        match self.find(key) {
            None => None,
            Some(i) => {
                proof {
                    self.lemma_at(i as int);
                }
                Some(&self.entries[i].1)
            },
        }
    }

    /// Whether there is a value for `key`.
    pub fn contains_key(&self, key: &str) -> (res: bool)
        requires
            self.wf(),
        ensures
            res == self@.dom().contains(key@),
    {
        match self.find(key) {
            None => false,
            Some(_) => true,
        }
    }

    /// Take the value for `key` out.
    pub fn remove(&mut self, key: &str) -> (res: Option<V>)
        requires
            old(self).wf(),
        ensures
            final(self).wf(),
            final(self)@ == old(self)@.remove(key@),
            forall|v: V| final(self).holds(v) ==> old(self).holds(v),
            match res {
                Some(value) => old(self)@.dom().contains(key@) && old(self)@[key@] == value@ && old(
                    self,
                ).holds(value),
                None => !old(self)@.dom().contains(key@) && *final(self) == *old(self),
            },
    {
        let ghost before_it = *self;
        match self.find(key) {
            None => {
                proof {
                    assert(before_it@.remove(key@) == before_it@);
                }
                None
            },
            Some(i) => {
                proof {
                    before_it.lemma_at(i as int);
                }
                let (_, value) = self.entries.remove(i);
                proof {
                    before_it.lemma_removed(*self, i as int);
                }
                Some(value)
            },
        }
    }

    /// What taking one entry out leaves.
    proof fn lemma_removed(self, after: Self, i: int)
        requires
            self.wf(),
            0 <= i < self.entries@.len(),
            after.entries@ == self.entries@.remove(i),
        ensures
            after.wf(),
            after@ == self@.remove(self.entries@[i].0@),
            forall|v: V| after.holds(v) ==> self.holds(v),
    {
        let key = self.entries@[i].0@;
        assert forall|a: int, b: int| 0 <= a < b < after.keys().len() implies before(
            #[trigger] after.keys()[a],
            #[trigger] after.keys()[b],
        ) by {
            let x = if a < i {
                a
            } else {
                a + 1
            };
            let y = if b < i {
                b
            } else {
                b + 1
            };
            assert(after.keys()[a] == self.keys()[x]);
            assert(after.keys()[b] == self.keys()[y]);
        }
        assert forall|v: V| after.holds(v) implies self.holds(v) by {
            let a = choose|a: int| 0 <= a < after.entries@.len() && after.entries@[a].1 == v;
            let x = if a < i {
                a
            } else {
                a + 1
            };
            assert(self.entries@[x].1 == v);
        }
        let want = self@.remove(key);
        assert forall|k: Seq<char>| #[trigger]
            after@.dom().contains(k) == want.dom().contains(k) && (after@.dom().contains(k)
                ==> after@[k] == want[k]) by {
            if after@.dom().contains(k) {
                let a = after.lemma_entry(k);
                let x = if a < i {
                    a
                } else {
                    a + 1
                };
                self.lemma_at(x);
                if k == key {
                    assert(self.keys()[x] == self.keys()[i]);
                    lemma_before_total(self.keys()[x], self.keys()[i]);
                    if x < i {
                        assert(before(self.keys()[x], self.keys()[i]));
                    } else {
                        assert(before(self.keys()[i], self.keys()[x]));
                    }
                }
            }
            if want.dom().contains(k) {
                let x = self.lemma_entry(k);
                let a = if x < i {
                    x
                } else {
                    x - 1
                };
                after.lemma_at(a);
            }
        }
        assert(after@.dom() =~= want.dom());
        assert(after@ =~= want);
    }

    /// Put `value` under `key`, in place of what was there.
    pub fn insert(&mut self, key: String, value: V)
        requires
            old(self).wf(),
        ensures
            final(self).wf(),
            final(self)@ == old(self)@.insert(key@, value@),
            forall|v: V| final(self).holds(v) ==> v == value || old(self).holds(v),
    {
        let ghost start = *self;
        let _ = self.remove(key.as_str());
        let ghost middle = *self;
        let i = self.place(key.as_str());
        self.entries.insert(i, (key, value));
        proof {
            middle.lemma_inserted(*self, i as int, (key, value));
            assert(self@ == start@.insert(key@, value@));
        }
    }

    /// What putting one entry in gives.
    proof fn lemma_inserted(self, after: Self, i: int, entry: (String, V))
        requires
            self.wf(),
            !self@.dom().contains(entry.0@),
            0 <= i <= self.entries@.len(),
            forall|j: int| 0 <= j < i ==> before(#[trigger] self.entries@[j].0@, entry.0@),
            i < self.entries@.len() ==> !before(self.entries@[i].0@, entry.0@),
            after.entries@ == self.entries@.insert(i, entry),
        ensures
            after.wf(),
            after@ == self@.insert(entry.0@, entry.1@),
            forall|v: V| after.holds(v) ==> v == entry.1 || self.holds(v),
    {
        let key = entry.0@;
        assert forall|j: int| i <= j < self.entries@.len() implies before(
            key,
            #[trigger] self.entries@[j].0@,
        ) by {
            self.lemma_at(i);
            self.lemma_at(j);
            lemma_before_total(key, self.entries@[i].0@);
            if i < j {
                assert(before(self.keys()[i], self.keys()[j]));
                lemma_before_transitive(key, self.entries@[i].0@, self.entries@[j].0@);
            }
        }
        assert forall|a: int, b: int| 0 <= a < b < after.keys().len() implies before(
            #[trigger] after.keys()[a],
            #[trigger] after.keys()[b],
        ) by {
            let x = if a < i {
                a
            } else {
                a - 1
            };
            let y = if b < i {
                b
            } else {
                b - 1
            };
            if a != i {
                assert(after.keys()[a] == self.keys()[x]);
                assert(self.keys()[x] == self.entries@[x].0@);
            } else {
                assert(after.keys()[a] == key);
            }
            if b != i {
                assert(after.keys()[b] == self.keys()[y]);
                assert(self.keys()[y] == self.entries@[y].0@);
            } else {
                assert(after.keys()[b] == key);
            }
        }
        assert forall|v: V| after.holds(v) implies v == entry.1 || self.holds(v) by {
            let a = choose|a: int| 0 <= a < after.entries@.len() && after.entries@[a].1 == v;
            if a < i {
                assert(self.entries@[a].1 == v);
            } else if a > i {
                assert(self.entries@[a - 1].1 == v);
            }
        }
        after.lemma_at(i);
        let want = self@.insert(key, entry.1@);
        assert forall|k: Seq<char>| #[trigger]
            after@.dom().contains(k) == want.dom().contains(k) && (after@.dom().contains(k)
                ==> after@[k] == want[k]) by {
            if after@.dom().contains(k) {
                let a = after.lemma_entry(k);
                if a < i {
                    self.lemma_at(a);
                } else if a > i {
                    self.lemma_at(a - 1);
                }
            }
            if self@.dom().contains(k) {
                let x = self.lemma_entry(k);
                if x < i {
                    after.lemma_at(x);
                } else {
                    after.lemma_at(x + 1);
                }
            }
        }
        assert(after@.dom() =~= want.dom());
        assert(after@ =~= want);
    }
}

} // verus!
