//! A lookup keyed by track or broadcast name.
//!
//! Each name appears at most once; inserting under a name that is present
//! replaces its value and hands the old one back, as a map does.

use vstd::prelude::*;
use vstd::utf8::{encode_utf8, encode_utf8_decode_utf8};

verus! {

/// Whether two strings hold the same characters, compared byte by byte.
pub fn str_eq(a: &str, b: &str) -> (eq: bool)
    ensures
        eq == (a@ == b@),
{
    let x = a.as_bytes();
    let y = b.as_bytes();
    proof {
        encode_utf8_decode_utf8(a@);
        encode_utf8_decode_utf8(b@);
    }
    if x.len() != y.len() {
        return false;
    }
    let mut i: usize = 0;
    while i < x.len()
        invariant
            x@ == encode_utf8(a@),
            y@ == encode_utf8(b@),
            x@.len() == y@.len(),
            i <= x@.len(),
            forall|j: int| 0 <= j < i ==> x@[j] == y@[j],
        decreases x@.len() - i,
    {
        if x[i] != y[i] {
            return false;
        }
        i = i + 1;
    }
    proof {
        assert(x@ =~= y@);
    }
    true
}

/// Values of type `V` under distinct names.
pub struct NameMap<V> {
    entries: Vec<(String, V)>,
}

impl<V> View for NameMap<V> {
    type V = Map<Seq<char>, V>;

    /// The map from names to values.
    closed spec fn view(&self) -> Map<Seq<char>, V> {
        Map::new(
            |name: Seq<char>| exists|i: int| 0 <= i < self.entries@.len() && self.entries@[i].0@ == name,
            |name: Seq<char>| self.entries@[self.position(name)].1,
        )
    }
}

impl<V> NameMap<V> {
    /// No name occurs twice.
    pub closed spec fn wf(&self) -> bool {
        forall|i: int, j: int|
            0 <= i < j < self.entries@.len() ==> #[trigger] self.entries@[i].0@
                != #[trigger] self.entries@[j].0@
    }

    /// The position of `name` among the entries, if it is there.
    closed spec fn position(&self, name: Seq<char>) -> int {
        choose|i: int| 0 <= i < self.entries@.len() && self.entries@[i].0@ == name
    }


    proof fn lemma_entry_in_view(&self, i: int)
        requires
            self.wf(),
            0 <= i < self.entries@.len(),
        ensures
            self@.dom().contains(self.entries@[i].0@),
            self.position(self.entries@[i].0@) == i,
            self@[self.entries@[i].0@] == self.entries@[i].1,
    {
        let name = self.entries@[i].0@;
        assert(exists|k: int| 0 <= k < self.entries@.len() && self.entries@[k].0@ == name);
        let p = self.position(name);
        if p != i {
            if p < i {
                assert(self.entries@[p].0@ != self.entries@[i].0@);
            } else {
                assert(self.entries@[i].0@ != self.entries@[p].0@);
            }
        }
    }

    /// An empty lookup.
    pub fn new() -> (m: Self)
        ensures
            m.wf(),
            m@ == Map::<Seq<char>, V>::empty(),
    {
        let m = NameMap { entries: Vec::new() };
        proof {
            assert(m@ =~= Map::<Seq<char>, V>::empty());
        }
        m
    }

    /// The number of names.
    pub fn len(&self) -> (n: usize)
        requires
            self.wf(),
        ensures
            n == self@.len(),
    {
        proof {
            self.lemma_len();
        }
        self.entries.len()
    }

    proof fn lemma_len(&self)
        requires
            self.wf(),
        ensures
            self@.dom().finite(),
            self@.len() == self.entries@.len(),
    {
        let keys = self.entries@.map_values(|e: (String, V)| e.0@);
        assert(keys.no_duplicates()) by {
            assert forall|i: int, j: int| 0 <= i < keys.len() && 0 <= j < keys.len() && i != j
                implies keys[i] != keys[j] by {
                if i < j {
                    assert(self.entries@[i].0@ != self.entries@[j].0@);
                } else {
                    assert(self.entries@[j].0@ != self.entries@[i].0@);
                }
            }
        }
        assert(self@.dom() =~= keys.to_set()) by {
            assert forall|name: Seq<char>| self@.dom().contains(name) implies keys.to_set().contains(name) by {
                let i = choose|i: int| 0 <= i < self.entries@.len() && self.entries@[i].0@ == name;
                assert(keys[i] == name);
            }
            assert forall|name: Seq<char>| keys.to_set().contains(name) implies self@.dom().contains(name) by {
                let i = choose|i: int| 0 <= i < keys.len() && keys[i] == name;
                assert(self.entries@[i].0@ == name);
            }
        }
        keys.unique_seq_to_set();
    }

    /// Where `name` stands among the entries.
    fn find(&self, name: &str) -> (pos: Option<usize>)
        requires
            self.wf(),
        ensures
            match pos {
                Some(i) => i < self.entries@.len() && self.entries@[i as int].0@ == name@,
                None => !self@.dom().contains(name@),
            },
    {
        let mut i: usize = 0;
        while i < self.entries.len()
            invariant
                i <= self.entries@.len(),
                forall|j: int| 0 <= j < i ==> self.entries@[j].0@ != name@,
            decreases self.entries@.len() - i,
        {
            if str_eq(self.entries[i].0.as_str(), name) {
                return Some(i);
            }
            i = i + 1;
        }
        None
    }

    /// Whether `name` is present.
    pub fn contains(&self, name: &str) -> (found: bool)
        requires
            self.wf(),
        ensures
            found == self@.dom().contains(name@),
    {
        match self.find(name) {
            Some(i) => {
                proof {
                    self.lemma_entry_in_view(i as int);
                }
                true
            },
            None => false,
        }
    }

    /// The value under `name`, if any.
    pub fn get(&self, name: &str) -> (value: Option<&V>)
        requires
            self.wf(),
        ensures
            match value {
                Some(v) => self@.dom().contains(name@) && *v == self@[name@],
                None => !self@.dom().contains(name@),
            },
    {
        match self.find(name) {
            Some(i) => {
                proof {
                    self.lemma_entry_in_view(i as int);
                }
                Some(&self.entries[i].1)
            },
            None => None,
        }
    }

    /// Puts `value` under `name`, handing back the value that was there.
    pub fn insert(&mut self, name: String, value: V) -> (previous: Option<V>)
        requires
            old(self).wf(),
        ensures
            final(self).wf(),
            final(self)@ == old(self)@.insert(name@, value),
            match previous {
                Some(v) => old(self)@.dom().contains(name@) && v == old(self)@[name@],
                None => !old(self)@.dom().contains(name@),
            },
    {
        let ghost before = self@;
        let ghost key = name@;
        match self.find(name.as_str()) {
            Some(i) => {
                proof {
                    self.lemma_entry_in_view(i as int);
                }
                let (_, old_value) = self.entries.remove(i);
                let ghost removed = self.entries@;
                self.entries.insert(i, (name, value));
                proof {
                    assert forall|k: int| 0 <= k < self.entries@.len() && k != i implies
                        #[trigger] self.entries@[k] == old(self).entries@[k] by {
                        if k < i {
                        } else {
                            assert(self.entries@[k] == removed[k - 1]);
                        }
                    }
                    assert(self.wf());
                    self.lemma_entry_in_view(i as int);
                    assert forall|n: Seq<char>| #[trigger] self@.dom().contains(n) == before.insert(key, value).dom().contains(n) by {
                        if self@.dom().contains(n) {
                            let j = choose|j: int| 0 <= j < self.entries@.len() && self.entries@[j].0@ == n;
                            if j != i {
                                old(self).lemma_entry_in_view(j);
                            }
                        }
                        if before.dom().contains(n) {
                            let j = choose|j: int| 0 <= j < old(self).entries@.len() && old(self).entries@[j].0@ == n;
                            if j != i {
                                self.lemma_entry_in_view(j);
                            }
                        }
                    }
                    assert forall|n: Seq<char>| #[trigger] self@.dom().contains(n) implies self@[n] == before.insert(key, value)[n] by {
                        let j = choose|j: int| 0 <= j < self.entries@.len() && self.entries@[j].0@ == n;
                        self.lemma_entry_in_view(j);
                        if j != i {
                            old(self).lemma_entry_in_view(j);
                        }
                    }
                    assert(self@ =~= before.insert(key, value));
                }
                Some(old_value)
            },
            None => {
                self.entries.push((name, value));
                proof {
                    let last = self.entries@.len() - 1;
                    assert forall|k: int| 0 <= k < last implies #[trigger] self.entries@[k] == old(self).entries@[k] by {}
                    assert forall|a: int, b: int| 0 <= a < b < self.entries@.len() implies #[trigger] self.entries@[a].0@ != #[trigger] self.entries@[b].0@ by {
                        if b == last {
                            if self.entries@[a].0@ == key {
                                old(self).lemma_entry_in_view(a);
                            }
                        } else {
                            assert(old(self).entries@[a].0@ != old(self).entries@[b].0@);
                        }
                    }
                    self.lemma_entry_in_view(last);
                    assert forall|n: Seq<char>| #[trigger] self@.dom().contains(n) == before.insert(key, value).dom().contains(n) by {
                        if self@.dom().contains(n) {
                            let j = choose|j: int| 0 <= j < self.entries@.len() && self.entries@[j].0@ == n;
                            if j != last {
                                old(self).lemma_entry_in_view(j);
                            }
                        }
                        if before.dom().contains(n) {
                            let j = choose|j: int| 0 <= j < old(self).entries@.len() && old(self).entries@[j].0@ == n;
                            self.lemma_entry_in_view(j);
                        }
                    }
                    assert forall|n: Seq<char>| #[trigger] self@.dom().contains(n) implies self@[n] == before.insert(key, value)[n] by {
                        let j = choose|j: int| 0 <= j < self.entries@.len() && self.entries@[j].0@ == n;
                        self.lemma_entry_in_view(j);
                        if j != last {
                            old(self).lemma_entry_in_view(j);
                        }
                    }
                    assert(self@ =~= before.insert(key, value));
                }
                None
            },
        }
    }

    /// Takes the value under `name` out, if there is one.
    pub fn remove(&mut self, name: &str) -> (removed: Option<V>)
        requires
            old(self).wf(),
        ensures
            final(self).wf(),
            final(self)@ == old(self)@.remove(name@),
            match removed {
                Some(v) => old(self)@.dom().contains(name@) && v == old(self)@[name@],
                None => !old(self)@.dom().contains(name@),
            },
    {
        let ghost before = self@;
        match self.find(name) {
            Some(i) => {
                proof {
                    self.lemma_entry_in_view(i as int);
                }
                let (_, value) = self.entries.remove(i);
                proof {
                    assert forall|k: int| 0 <= k < self.entries@.len() implies #[trigger] self.entries@[k] == old(self).entries@[if k < i { k } else { k + 1 }] by {}
                    assert forall|a: int, b: int| 0 <= a < b < self.entries@.len() implies #[trigger] self.entries@[a].0@ != #[trigger] self.entries@[b].0@ by {
                        let oa = if a < i { a } else { a + 1 };
                        let ob = if b < i { b } else { b + 1 };
                        assert(self.entries@[a] == old(self).entries@[oa]);
                        assert(self.entries@[b] == old(self).entries@[ob]);
                        assert(old(self).entries@[oa].0@ != old(self).entries@[ob].0@);
                    }
                    assert forall|n: Seq<char>| #[trigger] self@.dom().contains(n) == before.remove(name@).dom().contains(n) by {
                        if self@.dom().contains(n) {
                            let j = choose|j: int| 0 <= j < self.entries@.len() && self.entries@[j].0@ == n;
                            let oj = if j < i { j } else { j + 1 };
                            assert(self.entries@[j] == old(self).entries@[oj]);
                            old(self).lemma_entry_in_view(oj);
                            assert(oj != i);
                        }
                        if before.dom().contains(n) && n != name@ {
                            let j = choose|j: int| 0 <= j < old(self).entries@.len() && old(self).entries@[j].0@ == n;
                            assert(j != i);
                            let nj = if j < i { j } else { j - 1 };
                            assert(self.entries@[nj] == old(self).entries@[j]);
                            self.lemma_entry_in_view(nj);
                        }
                    }
                    assert forall|n: Seq<char>| #[trigger] self@.dom().contains(n) implies self@[n] == before.remove(name@)[n] by {
                        let j = choose|j: int| 0 <= j < self.entries@.len() && self.entries@[j].0@ == n;
                        self.lemma_entry_in_view(j);
                        let oj = if j < i { j } else { j + 1 };
                        assert(self.entries@[j] == old(self).entries@[oj]);
                        old(self).lemma_entry_in_view(oj);
                    }
                    assert(self@ =~= before.remove(name@));
                }
                Some(value)
            },
            None => {
                proof {
                    assert(self@ =~= before.remove(name@));
                }
                None
            },
        }
    }
}

/// A name looked up after a value was put under it finds that value; any
/// other name finds what it found before.
pub proof fn lemma_lookup_after_insert<V>(m: Map<Seq<char>, V>, name: Seq<char>, value: V, other: Seq<char>)
    requires
        other != name,
    ensures
        m.insert(name, value).dom().contains(name),
        m.insert(name, value)[name] == value,
        m.insert(name, value).dom().contains(other) == m.dom().contains(other),
        m.dom().contains(other) ==> m.insert(name, value)[other] == m[other],
{
}

/// A name looked up after it was removed finds nothing; any other name finds
/// what it found before.
pub proof fn lemma_lookup_after_remove<V>(m: Map<Seq<char>, V>, name: Seq<char>, other: Seq<char>)
    requires
        other != name,
    ensures
        !m.remove(name).dom().contains(name),
        m.remove(name).dom().contains(other) == m.dom().contains(other),
        m.dom().contains(other) ==> m.remove(name)[other] == m[other],
{
}

} // verus!
