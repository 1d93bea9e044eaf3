//! Maps keyed by text that remember the order in which their keys came.

use vstd::prelude::*;

verus! {

/// Whether some entry of `s` has the key `k`.
pub open spec fn has_key<V>(s: Seq<(Seq<char>, V)>, k: Seq<char>) -> bool {
    exists|i: int| 0 <= i < s.len() && (#[trigger] s[i]).0 == k
}

/// The place of an entry with key `k` (the only one where keys are distinct).
pub open spec fn index_of<V>(s: Seq<(Seq<char>, V)>, k: Seq<char>) -> int {
    choose|i: int| 0 <= i < s.len() && (#[trigger] s[i]).0 == k
}

/// The value stored under `k`, if any.
pub open spec fn value_of<V>(s: Seq<(Seq<char>, V)>, k: Seq<char>) -> Option<V> {
    if has_key(s, k) {
        Some(s[index_of(s, k)].1)
    } else {
        None
    }
}

/// No key occurs twice.
pub open spec fn distinct_keys<V>(s: Seq<(Seq<char>, V)>) -> bool {
    forall|i: int, j: int| 0 <= i < j < s.len() ==> (#[trigger] s[i]).0 != (#[trigger] s[j]).0
}

/// `s` with `v` stored under `k`: in place where the key exists, else at the end.
pub open spec fn put<V>(s: Seq<(Seq<char>, V)>, k: Seq<char>, v: V) -> Seq<(Seq<char>, V)> {
    if has_key(s, k) {
        s.update(index_of(s, k), (k, v))
    } else {
        s.push((k, v))
    }
}

/// `s` without the entry of `k`; the entries behind it move up by one.
pub open spec fn without<V>(s: Seq<(Seq<char>, V)>, k: Seq<char>) -> Seq<(Seq<char>, V)> {
    if has_key(s, k) {
        s.remove(index_of(s, k))
    } else {
        s
    }
}

/// `s` without the entry of `k`; the last entry takes the freed place.
pub open spec fn swap_without<V>(s: Seq<(Seq<char>, V)>, k: Seq<char>) -> Seq<(Seq<char>, V)> {
    if has_key(s, k) {
        s.update(index_of(s, k), s.last()).drop_last()
    } else {
        s
    }
}

/// In a sequence with distinct keys, an entry with key `k` sits at `index_of`.
pub proof fn lemma_index_of<V>(s: Seq<(Seq<char>, V)>, k: Seq<char>, i: int)
    requires
        distinct_keys(s),
        0 <= i < s.len(),
        s[i].0 == k,
    ensures
        has_key(s, k),
        index_of(s, k) == i,
        value_of(s, k) == Some(s[i].1),
{
    let j = index_of(s, k);
    if j < i {
        assert(s[j].0 != s[i].0);
    } else if i < j {
        assert(s[i].0 != s[j].0);
    }
}

/// What `put` does to lookups, and that it keeps keys distinct.
pub proof fn lemma_put<V>(s: Seq<(Seq<char>, V)>, k: Seq<char>, v: V)
    requires
        distinct_keys(s),
    ensures
        distinct_keys(put(s, k, v)),
        value_of(put(s, k, v), k) == Some(v),
        forall|q: Seq<char>| q != k ==> value_of(put(s, k, v), q) == #[trigger] value_of(s, q),
        forall|q: Seq<char>| #[trigger] has_key(put(s, k, v), q) <==> (q == k || has_key(s, q)),
        put(s, k, v).len() == if has_key(s, k) { s.len() } else { s.len() + 1 },
{
    let t = put(s, k, v);
    let p = if has_key(s, k) { index_of(s, k) } else { s.len() as int };
    assert(t[p] == (k, v));
    assert forall|i: int, j: int| 0 <= i < j < t.len() implies (#[trigger] t[i]).0 != (
    #[trigger] t[j]).0 by {
        if i != p && j != p {
            assert(t[i] == s[i] && t[j] == s[j]);
        } else if i == p {
            assert(t[j] == s[j]);
            if has_key(s, k) {
                assert(s[p].0 != s[j].0);
            }
        } else {
            assert(t[i] == s[i]);
            if has_key(s, k) {
                assert(s[i].0 != s[p].0);
            }
        }
    }
    lemma_index_of(t, k, p);
    assert forall|q: Seq<char>| q != k implies value_of(t, q) == #[trigger] value_of(s, q) by {
        if has_key(s, q) {
            let i = index_of(s, q);
            assert(t[i] == s[i]);
            lemma_index_of(t, q, i);
        } else if has_key(t, q) {
            let i = index_of(t, q);
            assert(t[i] == s[i]);
        }
    }
    assert forall|q: Seq<char>| #[trigger] has_key(t, q) <==> (q == k || has_key(s, q)) by {
        if has_key(s, q) {
            let i = index_of(s, q);
            if i != p {
                assert(t[i] == s[i]);
            }
        }
        if has_key(t, q) && q != k {
            let i = index_of(t, q);
            assert(t[i] == s[i]);
        }
    }
}

/// What `without` does to lookups, and that it keeps keys distinct.
pub proof fn lemma_without<V>(s: Seq<(Seq<char>, V)>, k: Seq<char>)
    requires
        distinct_keys(s),
    ensures
        distinct_keys(without(s, k)),
        !has_key(without(s, k), k),
        forall|q: Seq<char>| q != k ==> value_of(without(s, k), q) == #[trigger] value_of(s, q),
        forall|q: Seq<char>| #[trigger] has_key(without(s, k), q) <==> (q != k && has_key(s, q)),
        without(s, k).len() == if has_key(s, k) { s.len() - 1 } else { s.len() as int },
{
    let t = without(s, k);
    if has_key(s, k) {
        let p = index_of(s, k);
        assert forall|i: int| 0 <= i < t.len() implies #[trigger] t[i] == s[if i < p {
            i
        } else {
            i + 1
        }] by {}
        assert forall|i: int, j: int| 0 <= i < j < t.len() implies (#[trigger] t[i]).0 != (
        #[trigger] t[j]).0 by {
            let a = if i < p { i } else { i + 1 };
            let b = if j < p { j } else { j + 1 };
            assert(s[a].0 != s[b].0);
        }
        if has_key(t, k) {
            let i = index_of(t, k);
            let a = if i < p { i } else { i + 1 };
            assert(s[a].0 == s[p].0);
            if a < p {
                assert(s[a].0 != s[p].0);
            } else {
                assert(s[p].0 != s[a].0);
            }
        }
        assert forall|q: Seq<char>| q != k implies (value_of(t, q) == #[trigger] value_of(s, q)
            && (has_key(t, q) <==> has_key(s, q))) by {
            if has_key(s, q) {
                let i = index_of(s, q);
                let a = if i < p { i } else { i - 1 };
                assert(t[a] == s[i]);
                lemma_index_of(t, q, a);
            } else if has_key(t, q) {
                let i = index_of(t, q);
                let a = if i < p { i } else { i + 1 };
                assert(s[a].0 == q);
            }
        }
        assert forall|q: Seq<char>| #[trigger] has_key(t, q) <==> (q != k && has_key(s, q)) by {
            if q != k {
                assert(value_of(t, q) == value_of(s, q));
            }
        }
    }
}

/// What `swap_without` does to lookups, and that it keeps keys distinct.
pub proof fn lemma_swap_without<V>(s: Seq<(Seq<char>, V)>, k: Seq<char>)
    requires
        distinct_keys(s),
    ensures
        distinct_keys(swap_without(s, k)),
        !has_key(swap_without(s, k), k),
        forall|q: Seq<char>|
            q != k ==> value_of(swap_without(s, k), q) == #[trigger] value_of(s, q),
        forall|q: Seq<char>|
            #[trigger] has_key(swap_without(s, k), q) <==> (q != k && has_key(s, q)),
        swap_without(s, k).len() == if has_key(s, k) { s.len() - 1 } else { s.len() as int },
{
    let t = swap_without(s, k);
    if has_key(s, k) {
        let p = index_of(s, k);
        let n = s.len() - 1;
        assert forall|i: int| 0 <= i < t.len() implies #[trigger] t[i] == s[if i == p {
            n
        } else {
            i
        }] by {}
        assert forall|i: int, j: int| 0 <= i < j < t.len() implies (#[trigger] t[i]).0 != (
        #[trigger] t[j]).0 by {
            let a = if i == p { n } else { i };
            let b = if j == p { n } else { j };
            if a < b {
                assert(s[a].0 != s[b].0);
            } else {
                assert(s[b].0 != s[a].0);
            }
        }
        if has_key(t, k) {
            let i = index_of(t, k);
            let a = if i == p { n } else { i };
            if a < p {
                assert(s[a].0 != s[p].0);
            } else {
                assert(s[p].0 != s[a].0);
            }
        }
        assert forall|q: Seq<char>| q != k implies (value_of(t, q) == #[trigger] value_of(s, q)
            && (has_key(t, q) <==> has_key(s, q))) by {
            if has_key(s, q) {
                let i = index_of(s, q);
                let a = if i == n { p } else { i };
                assert(t[a] == s[i]);
                lemma_index_of(t, q, a);
            } else if has_key(t, q) {
                let i = index_of(t, q);
                let a = if i == p { n } else { i };
                assert(s[a].0 == q);
            }
        }
        assert forall|q: Seq<char>| #[trigger] has_key(t, q) <==> (q != k && has_key(s, q)) by {
            if q != k {
                assert(value_of(t, q) == value_of(s, q));
            }
        }
    }
}

/// An insertion-ordered map from text to `V`.
pub struct Dict<V> {
    entries: Vec<(String, V)>,
}

impl<V> View for Dict<V> {
    type V = Seq<(Seq<char>, V)>;

    closed spec fn view(&self) -> Seq<(Seq<char>, V)> {
        self.entries@.map_values(|e: (String, V)| (e.0@, e.1))
    }
}

impl<V> Dict<V> {
    /// No key occurs twice.
    pub open spec fn wf(&self) -> bool {
        distinct_keys(self@)
    }

    /// An empty map.
    pub fn new() -> (d: Self)
        ensures
            d@ == Seq::<(Seq<char>, V)>::empty(),
            d.wf(),
    {
        let d = Dict { entries: Vec::new() };
        assert(d@ =~= Seq::<(Seq<char>, V)>::empty());
        d
    }

    /// Number of entries.
    pub fn len(&self) -> (n: usize)
        ensures
            n == self@.len(),
    {
        self.entries.len()
    }

    /// Place of the entry with key `key`.
    pub fn position(&self, key: &str) -> (r: Option<usize>)
        requires
            self.wf(),
        ensures
            r is Some <==> has_key(self@, key@),
            r is Some ==> r.unwrap() == index_of(self@, key@) && r.unwrap() < self@.len(),
    {
        let k = key.to_owned();
        let mut i: usize = 0;
        while i < self.entries.len()
            invariant
                i <= self.entries@.len(),
                k@ == key@,
                self.wf(),
                forall|j: int| 0 <= j < i ==> (#[trigger] self@[j]).0 != key@,
            decreases self.entries@.len() - i,
        {
            if self.entries[i].0 == k {
                proof {
                    assert(self@[i as int].0 == key@);
                    lemma_index_of(self@, key@, i as int);
                }
                return Some(i);
            }
            assert(self@[i as int].0 != key@);
            i += 1;
        }
        None
    }

    /// Whether `key` has an entry.
    pub fn contains_key(&self, key: &str) -> (b: bool)
        requires
            self.wf(),
        ensures
            b == has_key(self@, key@),
    {
        self.position(key).is_some()
    }

    /// The value stored under `key`.
    pub fn get(&self, key: &str) -> (r: Option<&V>)
        requires
            self.wf(),
        ensures
            match r {
                Some(v) => value_of(self@, key@) == Some(*v),
                None => value_of(self@, key@) is None,
            },
    {
        match self.position(key) {
            Some(i) => Some(&self.entries[i].1),
            None => None,
        }
    }

    /// The value stored under a key that is there.
    pub fn at(&self, key: &str) -> (v: &V)
        requires
            self.wf(),
            has_key(self@, key@),
        ensures
            value_of(self@, key@) == Some(*v),
    {
        let k = key.to_owned();
        let ghost p = index_of(self@, key@);
        let n: usize = self.entries.len();
        let mut i: usize = 0;
        while !(self.entries[i].0 == k)
            invariant
                i <= p < n,
                n == self.entries@.len(),
                p == index_of(self@, key@),
                self@[p].0 == key@,
                k@ == key@,
            decreases p - i,
        {
            assert(self@[i as int].0 != key@);
            assert(i < p);
            i += 1;
        }
        proof {
            assert(self@[i as int].0 == key@);
            lemma_index_of(self@, key@, i as int);
        }
        &self.entries[i].1
    }

    /// The key of the entry at place `i`.
    pub fn key_at(&self, i: usize) -> (k: &String)
        requires
            i < self@.len(),
        ensures
            k@ == self@[i as int].0,
    {
        &self.entries[i].0
    }

    /// The value of the entry at place `i`.
    pub fn value_at(&self, i: usize) -> (v: &V)
        requires
            i < self@.len(),
        ensures
            *v == self@[i as int].1,
    {
        &self.entries[i].1
    }

    /// Stores `value` under `key`. A key that is already there keeps its place.
    pub fn insert(&mut self, key: String, value: V)
        requires
            old(self).wf(),
        ensures
            final(self)@ == put(old(self)@, key@, value),
            final(self).wf(),
    {
        proof {
            lemma_put(self@, key@, value);
        }
        match self.position(key.as_str()) {
            Some(i) => {
                self.entries.set(i, (key, value));
            },
            None => {
                self.entries.push((key, value));
            },
        }
        assert(self@ =~= put(old(self)@, key@, value));
    }

    /// Removes the entry of `key` and hands its value out.
    pub fn remove(&mut self, key: &str) -> (r: Option<V>)
        requires
            old(self).wf(),
        ensures
            final(self)@ == without(old(self)@, key@),
            r == value_of(old(self)@, key@),
            final(self).wf(),
    {
        proof {
            lemma_without(self@, key@);
        }
        match self.position(key) {
            Some(i) => {
                let e = self.entries.remove(i);
                assert(self@ =~= without(old(self)@, key@));
                Some(e.1)
            },
            None => None,
        }
    }
}

/// Entries with text values, seen as sequences of characters.
pub open spec fn text_entries(s: Seq<(Seq<char>, String)>) -> Seq<(Seq<char>, Seq<char>)> {
    s.map_values(|e: (Seq<char>, String)| (e.0, e.1@))
}

/// Seeing texts as characters keeps the keys: they stay distinct, and the same keys are there.
pub proof fn lemma_text_entries(s: Seq<(Seq<char>, String)>)
    ensures
        distinct_keys(s) <==> distinct_keys(text_entries(s)),
        forall|k: Seq<char>| has_key(s, k) <==> #[trigger] has_key(text_entries(s), k),
{
    let t = text_entries(s);
    assert forall|i: int| 0 <= i < s.len() implies (#[trigger] t[i]).0 == s[i].0 by {}
    if distinct_keys(s) {
        assert forall|i: int, j: int| 0 <= i < j < t.len() implies (#[trigger] t[i]).0 != (
        #[trigger] t[j]).0 by {
            assert(s[i].0 != s[j].0);
        }
    }
    if distinct_keys(t) {
        assert forall|i: int, j: int| 0 <= i < j < s.len() implies (#[trigger] s[i]).0 != (
        #[trigger] s[j]).0 by {
            assert(t[i].0 != t[j].0);
        }
    }
    assert forall|k: Seq<char>| has_key(s, k) <==> #[trigger] has_key(t, k) by {
        if has_key(s, k) {
            let i = index_of(s, k);
            assert(t[i].0 == k);
        }
        if has_key(t, k) {
            let i = index_of(t, k);
            assert(s[i].0 == k);
        }
    }
}

/// Seeing texts as characters keeps each entry in its place.
pub proof fn lemma_text_value(s: Seq<(Seq<char>, String)>, k: Seq<char>)
    requires
        distinct_keys(s),
    ensures
        has_key(s, k) <==> has_key(text_entries(s), k),
        has_key(s, k) ==> index_of(text_entries(s), k) == index_of(s, k) && value_of(
            text_entries(s),
            k,
        ) == Some(value_of(s, k).unwrap()@),
{
    lemma_text_entries(s);
    if has_key(s, k) {
        let i = index_of(s, k);
        let t = text_entries(s);
        assert(t[i].0 == k);
        lemma_index_of(t, k, i);
    }
}

/// Storing a text and then seeing texts as characters is storing its characters.
pub proof fn lemma_text_put(s: Seq<(Seq<char>, String)>, k: Seq<char>, v: String)
    requires
        distinct_keys(s),
    ensures
        text_entries(put(s, k, v)) == put(text_entries(s), k, v@),
{
    lemma_text_value(s, k);
    assert(text_entries(put(s, k, v)) =~= put(text_entries(s), k, v@));
}

/// Removing a key and then seeing texts as characters is removing the key from what is seen.
pub proof fn lemma_text_without(s: Seq<(Seq<char>, String)>, k: Seq<char>)
    requires
        distinct_keys(s),
    ensures
        text_entries(without(s, k)) == without(text_entries(s), k),
{
    lemma_text_value(s, k);
    assert(text_entries(without(s, k)) =~= without(text_entries(s), k));
}

impl Dict<String> {
    /// A copy with the same keys and texts, in the same order.
    pub fn clone_texts(&self) -> (d: Dict<String>)
        ensures
            text_entries(d@) == text_entries(self@),
            self.wf() ==> d.wf(),
    {
        let mut out: Vec<(String, String)> = Vec::new();
        let mut i: usize = 0;
        while i < self.entries.len()
            invariant
                i <= self.entries@.len(),
                out@.len() == i,
                forall|j: int|
                    0 <= j < i ==> (#[trigger] out@[j]).0@ == self.entries@[j].0@ && out@[j].1@
                        == self.entries@[j].1@,
            decreases self.entries@.len() - i,
        {
            out.push((self.entries[i].0.clone(), self.entries[i].1.clone()));
            i += 1;
        }
        let d = Dict { entries: out };
        assert(text_entries(d@) =~= text_entries(self@));
        proof {
            lemma_text_entries(d@);
            lemma_text_entries(self@);
        }
        d
    }
}

} // verus!
