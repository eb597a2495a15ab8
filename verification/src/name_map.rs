//! A map from names to values, kept in ascending name order, as a
//! `BTreeMap<String, V>` keeps it.

use vstd::prelude::*;
use crate::text::{names_of, lex_lt, str_lt, lemma_lex_irreflexive, lemma_lex_transitive, lemma_lex_total};

verus! {

/// Names in strictly ascending lexicographic order (so no name twice).
pub open spec fn strictly_sorted(names: Seq<Seq<char>>) -> bool {
    forall|i: int, j: int| 0 <= i < j < names.len() ==> lex_lt(#[trigger] names[i], #[trigger] names[j])
}

/// A strictly sorted sequence holds no name twice.
pub proof fn lemma_sorted_distinct(names: Seq<Seq<char>>, i: int, j: int)
    requires
        strictly_sorted(names),
        0 <= i < names.len(),
        0 <= j < names.len(),
        i != j,
    ensures
        names[i] != names[j],
{
    if i < j {
        assert(lex_lt(names[i], names[j]));
        lemma_lex_irreflexive(names[i]);
    } else {
        assert(lex_lt(names[j], names[i]));
        lemma_lex_irreflexive(names[i]);
    }
}

/// In a strictly sorted sequence a name found at `i` has index `i`.
pub proof fn lemma_index_unique(names: Seq<Seq<char>>, k: Seq<char>, i: int)
    requires
        strictly_sorted(names),
        0 <= i < names.len(),
        names[i] == k,
    ensures
        names.contains(k),
        names.index_of(k) == i,
{
    assert(names.contains(k));
    let j = names.index_of(k);
    if j != i {
        lemma_sorted_distinct(names, i, j);
    }
}

/// Names mapped to values, iterated in ascending name order.
#[derive(Debug)]
pub struct NameMap<V> {
    entries: Vec<(String, V)>,
}

impl<V> NameMap<V> {
    /// The names, in iteration order.
    pub closed spec fn keys(&self) -> Seq<Seq<char>> {
        self.entries@.map_values(|e: (String, V)| e.0@)
    }

    /// The values, in the order of their names.
    pub closed spec fn values(&self) -> Seq<V> {
        self.entries@.map_values(|e: (String, V)| e.1)
    }

    #[verifier::type_invariant]
    closed spec fn ordered(&self) -> bool {
        strictly_sorted(self.keys())
    }

    /// Whether `name` is a key.
    pub open spec fn has(&self, name: Seq<char>) -> bool {
        self.keys().contains(name)
    }

    /// The value stored under `name`, where it is a key.
    pub open spec fn lookup(&self, name: Seq<char>) -> V
        recommends
            self.has(name),
    {
        self.values()[self.keys().index_of(name)]
    }

    /// The key at an index is found at that index.
    pub proof fn lemma_lookup_at(&self, i: int)
        requires
            strictly_sorted(self.keys()),
            0 <= i < self.keys().len(),
        ensures
            self.has(self.keys()[i]),
            self.keys().index_of(self.keys()[i]) == i,
            self.lookup(self.keys()[i]) == self.values()[i],
    {
        let k = self.keys()[i];
        assert(self.keys().contains(k));
        let j = self.keys().index_of(k);
        if j != i {
            lemma_sorted_distinct(self.keys(), i, j);
        }
    }

    /// An empty map.
    pub fn new() -> (m: Self)
        ensures
            m.keys() == Seq::<Seq<char>>::empty(),
            m.values() == Seq::<V>::empty(),
    {
        let m = NameMap { entries: Vec::new() };
        assert(m.keys() =~= Seq::<Seq<char>>::empty());
        assert(m.values() =~= Seq::<V>::empty());
        m
    }

    /// The number of entries.
    pub fn len(&self) -> (n: usize)
        ensures
            n == self.keys().len(),
            n == self.values().len(),
            strictly_sorted(self.keys()),
    {
        proof {
            use_type_invariant(self);
        }
        self.entries.len()
    }

    /// The name at position `i` in iteration order.
    pub fn key_at(&self, i: usize) -> (k: &String)
        requires
            i < self.keys().len(),
        ensures
            k@ == self.keys()[i as int],
    {
        &self.entries[i].0
    }

    /// The value at position `i` in iteration order.
    pub fn value_at(&self, i: usize) -> (v: &V)
        requires
            i < self.values().len(),
        ensures
            *v == self.values()[i as int],
    {
        &self.entries[i].1
    }

    /// The position of `name`, if it is a key.
    pub fn position(&self, name: &str) -> (r: Option<usize>)
        ensures
            match r {
                Some(i) => i < self.keys().len() && self.keys()[i as int] == name@
                    && self.keys().index_of(name@) == i,
                None => !self.has(name@),
            },
    {
        proof {
            use_type_invariant(self);
        }
        let mut i: usize = 0;
        while i < self.entries.len()
            invariant
                i <= self.entries@.len(),
                strictly_sorted(self.keys()),
                forall|j: int| 0 <= j < i ==> self.keys()[j] != name@,
            decreases self.entries.len() - i,
        {
            let found = str_eq(self.entries[i].0.as_str(), name);
            if found {
                proof {
                    self.lemma_lookup_at(i as int);
                }
                return Some(i);
            }
            i = i + 1;
        }
        None
    }

    /// Whether `name` is a key.
    pub fn contains_key(&self, name: &str) -> (r: bool)
        ensures
            r == self.has(name@),
    {
        self.position(name).is_some()
    }

    /// The value stored under `name`, if any.
    pub fn get(&self, name: &str) -> (r: Option<&V>)
        ensures
            match r {
                Some(v) => self.has(name@) && *v == self.lookup(name@),
                None => !self.has(name@),
            },
    {
        match self.position(name) {
            Some(i) => Some(&self.entries[i].1),
            None => None,
        }
    }

    /// The names and the values, in iteration order.
    pub fn into_parts(self) -> (r: (Vec<String>, Vec<V>))
        ensures
            names_of(r.0@) == self.keys(),
            r.1@ == self.values(),
            r.0@.len() == r.1@.len(),
            strictly_sorted(self.keys()),
    {
        proof {
            use_type_invariant(&self);
        }
        let ghost keys = self.keys();
        let ghost values = self.values();
        let NameMap { entries } = self;
        let mut entries = entries;
        let ghost all = entries@;
        let mut names: Vec<String> = Vec::new();
        let mut vals: Vec<V> = Vec::new();
        while entries.len() > 0
            invariant
                keys == keys_of(all),
                values == values_of(all),
                entries@.len() <= all.len(),
                entries@ == all.subrange(0, entries@.len() as int),
                names_of(names@) == keys_of(all).subrange(entries@.len() as int, all.len() as int),
                vals@ == values_of(all).subrange(entries@.len() as int, all.len() as int),
            decreases entries@.len(),
        {
            let (k, v) = entries.pop().unwrap();
            let ghost m = entries@.len() as int;
            let ghost old_names = names@;
            let ghost old_vals = vals@;
            names.insert(0, k);
            vals.insert(0, v);
            proof {
                assert(all[m] == (k, v));
                assert(keys_of(all).len() == all.len());
                assert(values_of(all).len() == all.len());
                assert(names_of(old_names).len() == old_names.len());
                assert(old_names.len() == all.len() - (m + 1));
                assert(names@.len() == all.len() - m);
                assert forall|j: int| 0 <= j < names@.len() implies #[trigger] names_of(names@)[j]
                    == keys_of(all).subrange(m, all.len() as int)[j] by {
                    if j == 0 {
                        assert(names@[0] == k);
                        assert(keys_of(all)[m] == all[m].0@);
                        assert(keys_of(all).subrange(m, all.len() as int)[0] == keys_of(all)[m]);
                    } else {
                        assert(names@[j] == old_names[j - 1]);
                        assert(names_of(names@)[j] == names@[j]@);
                        assert(names_of(old_names)[j - 1] == old_names[j - 1]@);
                        assert(names_of(old_names)[j - 1] == keys_of(all).subrange(m + 1, all.len() as int)[j - 1]);
                        assert(keys_of(all).subrange(m + 1, all.len() as int)[j - 1] == keys_of(all)[m + j]);
                    }
                }
                assert(names_of(names@) =~= keys_of(all).subrange(m, all.len() as int));
                assert forall|j: int| 0 <= j < vals@.len() implies #[trigger] vals@[j]
                    == values_of(all).subrange(m, all.len() as int)[j] by {
                    if j > 0 {
                        assert(vals@[j] == old_vals[j - 1]);
                    }
                }
                assert(vals@ =~= values_of(all).subrange(m, all.len() as int));
            }
        }
        assert(keys_of(all).subrange(0, all.len() as int) =~= keys_of(all));
        assert(values_of(all).subrange(0, all.len() as int) =~= values_of(all));
        (names, vals)
    }

    /// A map from names in strictly ascending order and their values.
    pub fn from_parts(names: Vec<String>, values: Vec<V>) -> (m: Self)
        requires
            names@.len() == values@.len(),
            strictly_sorted(names_of(names@)),
        ensures
            m.keys() == names_of(names@),
            m.values() == values@,
    {
        let ghost ns = names@;
        let ghost vs = values@;
        let mut names = names;
        let mut values = values;
        let mut entries: Vec<(String, V)> = Vec::new();
        while names.len() > 0
            invariant
                names@.len() == values@.len(),
                names@.len() <= ns.len(),
                ns.len() == vs.len(),
                names@ == ns.subrange(0, names@.len() as int),
                values@ == vs.subrange(0, values@.len() as int),
                keys_of(entries@) == names_of(ns).subrange(names@.len() as int, ns.len() as int),
                values_of(entries@) == vs.subrange(values@.len() as int, vs.len() as int),
            decreases names@.len(),
        {
            let k = names.pop().unwrap();
            let v = values.pop().unwrap();
            let ghost m = names@.len() as int;
            let ghost old_entries = entries@;
            entries.insert(0, (k, v));
            proof {
                assert(ns[m] == k);
                assert(vs[m] == v);
                assert(names_of(ns).len() == ns.len());
                assert(keys_of(old_entries).len() == old_entries.len());
                assert(values_of(old_entries).len() == old_entries.len());
                assert(old_entries.len() == ns.len() - (m + 1));
                assert(entries@.len() == ns.len() - m);
                assert forall|j: int| 0 <= j < entries@.len() implies #[trigger] keys_of(entries@)[j]
                    == names_of(ns).subrange(m, ns.len() as int)[j] && values_of(entries@)[j] == vs.subrange(m, vs.len() as int)[j] by {
                    if j == 0 {
                        assert(entries@[0] == (k, v));
                        assert(names_of(ns)[m] == ns[m]@);
                        assert(names_of(ns).subrange(m, ns.len() as int)[0] == names_of(ns)[m]);
                    } else {
                        assert(entries@[j] == old_entries[j - 1]);
                        assert(keys_of(entries@)[j] == entries@[j].0@);
                        assert(keys_of(old_entries)[j - 1] == old_entries[j - 1].0@);
                        assert(values_of(entries@)[j] == entries@[j].1);
                        assert(values_of(old_entries)[j - 1] == old_entries[j - 1].1);
                        assert(keys_of(old_entries)[j - 1] == names_of(ns).subrange(m + 1, ns.len() as int)[j - 1]);
                        assert(values_of(old_entries)[j - 1] == vs.subrange(m + 1, vs.len() as int)[j - 1]);
                    }
                }
                assert(keys_of(entries@) =~= names_of(ns).subrange(m, ns.len() as int));
                assert forall|j: int| 0 <= j < entries@.len() implies #[trigger] values_of(entries@)[j]
                    == vs.subrange(m, vs.len() as int)[j] by {
                    assert(keys_of(entries@)[j] == names_of(ns).subrange(m, ns.len() as int)[j]);
                }
                assert(values_of(entries@) =~= vs.subrange(m, vs.len() as int));
            }
        }
        assert(names_of(ns).subrange(0, ns.len() as int) =~= names_of(ns));
        assert(vs.subrange(0, vs.len() as int) =~= vs);
        NameMap { entries }
    }

    /// Stores `value` under `name`, keeping the names in order; gives back the
    /// value that was stored under `name` before, if any.
    pub fn insert(&mut self, name: String, value: V) -> (old_value: Option<V>)
        ensures
            match old_value {
                Some(v) => old(self).has(name@) && v == old(self).lookup(name@)
                    && final(self).keys() == old(self).keys()
                    && final(self).values() == old(self).values().update(
                        old(self).keys().index_of(name@), value),
                None => !old(self).has(name@)
                    && exists|p: int| 0 <= p <= old(self).keys().len()
                        && final(self).keys() == old(self).keys().insert(p, name@)
                        && final(self).values() == old(self).values().insert(p, value),
            },
            forall|k: Seq<char>| #[trigger] final(self).has(k) <==> old(self).has(k) || k == name@,
            final(self).lookup(name@) == value,
            forall|k: Seq<char>| k != name@ && old(self).has(k) ==> #[trigger] final(self).lookup(k) == old(self).lookup(k),
    {
        proof {
            use_type_invariant(&*self);
        }
        let ghost old_keys = self.keys();
        let ghost old_values = self.values();
        let mut entries: Vec<(String, V)> = Vec::new();
        std::mem::swap(&mut entries, &mut self.entries);
        let ghost nm = name@;
        let (result, entries) = insert_sorted(entries, name, value);
        proof {
            let nk = keys_of(entries@);
            let nv = values_of(entries@);
            assert(nk.len() == nv.len());
            match result {
                Some(_) => {
                    let p = old_keys.index_of(nm);
                    lemma_index_unique(nk, nm, p);
                    assert forall|k: Seq<char>| k != nm && old_keys.contains(k) implies nv[nk.index_of(k)] == old_values[old_keys.index_of(k)] by {
                        let q = old_keys.index_of(k);
                        lemma_index_unique(old_keys, k, q);
                        lemma_index_unique(nk, k, q);
                    }
                },
                None => {
                    let p = choose|p: int| 0 <= p <= old_keys.len() && nk == old_keys.insert(p, nm)
                        && nv == old_values.insert(p, value);
                    assert(nk[p] == nm);
                    lemma_index_unique(nk, nm, p);
                    assert forall|k: Seq<char>| #[trigger] nk.contains(k) <==> old_keys.contains(k) || k == nm by {
                        if nk.contains(k) {
                            let j = choose|j: int| 0 <= j < nk.len() && nk[j] == k;
                            if j < p {
                                assert(old_keys[j] == k);
                            } else if j > p {
                                assert(old_keys[j - 1] == k);
                            }
                        }
                        if old_keys.contains(k) {
                            let j = choose|j: int| 0 <= j < old_keys.len() && old_keys[j] == k;
                            if j < p {
                                assert(nk[j] == k);
                            } else {
                                assert(nk[j + 1] == k);
                            }
                        }
                    }
                    assert forall|k: Seq<char>| k != nm && old_keys.contains(k) implies nv[nk.index_of(k)] == old_values[old_keys.index_of(k)] by {
                        let q = old_keys.index_of(k);
                        lemma_index_unique(old_keys, k, q);
                        if q < p {
                            assert(nk[q] == k);
                            lemma_index_unique(nk, k, q);
                        } else {
                            assert(nk[q + 1] == k);
                            lemma_index_unique(nk, k, q + 1);
                        }
                    }
                },
            }
        }
        self.entries = entries;
        result
    }
}

spec fn keys_of<V>(entries: Seq<(String, V)>) -> Seq<Seq<char>> {
    entries.map_values(|e: (String, V)| e.0@)
}

spec fn values_of<V>(entries: Seq<(String, V)>) -> Seq<V> {
    entries.map_values(|e: (String, V)| e.1)
}

fn insert_sorted<V>(start: Vec<(String, V)>, name: String, value: V) -> (r: (Option<V>, Vec<(String, V)>))
    requires
        strictly_sorted(keys_of(start@)),
    ensures
        strictly_sorted(keys_of(r.1@)),
        match r.0 {
            Some(v) => keys_of(start@).contains(name@)
                && v == values_of(start@)[keys_of(start@).index_of(name@)]
                && keys_of(r.1@) == keys_of(start@)
                && values_of(r.1@) == values_of(start@).update(
                    keys_of(start@).index_of(name@), value),
            None => !keys_of(start@).contains(name@)
                && exists|p: int| 0 <= p <= start@.len()
                    && keys_of(r.1@) == keys_of(start@).insert(p, name@)
                    && values_of(r.1@) == values_of(start@).insert(p, value),
        },
{
    let mut entries = start;
    let ghost old_keys = keys_of(entries@);
    let ghost old_values = values_of(entries@);
    let mut i: usize = 0;
    while i < entries.len()
        invariant
            i <= entries@.len(),
            keys_of(entries@) == old_keys,
            values_of(entries@) == old_values,
            old_keys == keys_of(start@),
            old_values == values_of(start@),
            strictly_sorted(old_keys),
            forall|j: int| 0 <= j < i ==> lex_lt(#[trigger] old_keys[j], name@),
        decreases entries.len() - i,
    {
        if str_eq(entries[i].0.as_str(), name.as_str()) {
            proof {
                assert(old_keys[i as int] == name@);
                assert(old_keys.contains(name@));
                let j = old_keys.index_of(name@);
                if j != i {
                    lemma_sorted_distinct(old_keys, i as int, j);
                }
            }
            let entry = (k_clone(&entries[i].0), value);
            let previous = vec_replace(&mut entries, i, entry);
            assert(keys_of(entries@) =~= old_keys);
            assert(values_of(entries@) =~= old_values.update(i as int, value));
            assert(old_keys.index_of(name@) == i);
            assert(previous.1 == old_values[i as int]);
            return (Some(previous.1), entries);
        }
        if str_lt(name.as_str(), entries[i].0.as_str()) {
            proof {
                assert forall|j: int| i <= j < old_keys.len() implies lex_lt(name@, #[trigger] old_keys[j]) by {
                    if j > i {
                        lemma_lex_transitive(name@, old_keys[i as int], old_keys[j]);
                    }
                }
                assert forall|j: int| 0 <= j < old_keys.len() implies old_keys[j] != name@ by {
                    if j < i {
                        lemma_lex_irreflexive(name@);
                    } else if j > i {
                        lemma_lex_transitive(name@, old_keys[i as int], old_keys[j]);
                        lemma_lex_irreflexive(name@);
                    } else {
                        lemma_lex_irreflexive(name@);
                    }
                }
            }
            entries.insert(i, (name, value));
            proof {
                assert(keys_of(entries@) =~= old_keys.insert(i as int, name@));
                assert(values_of(entries@) =~= old_values.insert(i as int, value));
                let nk = keys_of(entries@);
                assert forall|a: int, b: int| 0 <= a < b < nk.len() implies lex_lt(
                    #[trigger] nk[a],
                    #[trigger] nk[b],
                ) by {
                    if b < i {
                    } else if b == i {
                    } else if a < i {
                        assert(lex_lt(name@, old_keys[b - 1]));
                        lemma_lex_transitive(old_keys[a], name@, old_keys[b - 1]);
                    } else if a == i {
                        assert(lex_lt(name@, old_keys[b - 1]));
                    } else {
                        assert(lex_lt(old_keys[a - 1], old_keys[b - 1]));
                    }
                }
                assert(keys_of(entries@) == old_keys.insert(i as int, name@));
                assert(!old_keys.contains(name@));
                assert(0 <= i <= old_keys.len() && keys_of(entries@) == old_keys.insert(i as int, name@)
                    && values_of(entries@) == old_values.insert(i as int, value));
            }
            return (None, entries);
        }
        proof {
            lemma_lex_total(name@, old_keys[i as int]);
        }
        i = i + 1;
    }
    proof {
        assert forall|j: int| 0 <= j < old_keys.len() implies old_keys[j] != name@ by {
            lemma_lex_irreflexive(name@);
        }
    }
    entries.push((name, value));
    proof {
        assert(keys_of(entries@) =~= old_keys.insert(old_keys.len() as int, name@));
        assert(values_of(entries@) =~= old_values.insert(old_values.len() as int, value));
    }
    (None, entries)
}

impl<V: Clone> Clone for NameMap<V> {
    /// A copy with the same names; each value is cloned.
    fn clone(&self) -> (m: Self)
        ensures
            m.keys() == self.keys(),
            m.values().len() == self.values().len(),
            forall|i: int| 0 <= i < self.values().len() ==> cloned::<V>(self.values()[i], #[trigger] m.values()[i]),
    {
        proof {
            use_type_invariant(self);
        }
        let mut entries: Vec<(String, V)> = Vec::new();
        let mut i: usize = 0;
        while i < self.entries.len()
            invariant
                i <= self.entries@.len(),
                entries@.len() == i,
                keys_of(entries@) == keys_of(self.entries@).take(i as int),
                strictly_sorted(keys_of(self.entries@)),
                forall|j: int| 0 <= j < i ==> cloned::<V>(self.entries@[j].1, #[trigger] entries@[j].1),
            decreases self.entries.len() - i,
        {
            let k = k_clone(&self.entries[i].0);
            let v = self.entries[i].1.clone();
            let ghost prev = entries@;
            entries.push((k, v));
            proof {
                assert(entries@[i as int].1 == v);
                assert forall|j: int| 0 <= j < i + 1 implies cloned::<V>(self.entries@[j].1, #[trigger] entries@[j].1) by {
                    if j < i {
                        assert(entries@[j] == prev[j]);
                    }
                }
                assert(entries@[i as int].0@ == keys_of(self.entries@)[i as int]);
                assert forall|j: int| 0 <= j < i + 1 implies #[trigger] keys_of(entries@)[j]
                    == keys_of(self.entries@).take(i + 1)[j] by {
                    if j < i {
                        assert(entries@[j] == prev[j]);
                        assert(keys_of(prev)[j] == keys_of(self.entries@).take(i as int)[j]);
                    }
                }
                assert(keys_of(entries@) =~= keys_of(self.entries@).take(i + 1));
            }
            i = i + 1;
        }
        assert(keys_of(self.entries@).take(i as int) =~= keys_of(self.entries@));
        let m = NameMap { entries };
        proof {
            assert forall|j: int| 0 <= j < self.values().len() implies cloned::<V>(self.values()[j], #[trigger] m.values()[j]) by {
                assert(self.values()[j] == self.entries@[j].1);
                assert(m.values()[j] == m.entries@[j].1);
            }
        }
        m
    }
}

impl<V> Default for NameMap<V> {
    fn default() -> (m: Self)
        ensures
            m.keys() == Seq::<Seq<char>>::empty(),
            m.values() == Seq::<V>::empty(),
    {
        NameMap::new()
    }
}

/// Whether two strings hold the same text.
pub fn str_eq(a: &str, b: &str) -> (r: bool)
    ensures
        r == (a@ == b@),
{
    let ca = crate::text::chars_of(a);
    let cb = crate::text::chars_of(b);
    if ca.len() != cb.len() {
        assert(ca@.len() != cb@.len());
        return false;
    }
    let mut i: usize = 0;
    while i < ca.len()
        invariant
            i <= ca.len(),
            ca.len() == cb.len(),
            ca@ == a@,
            cb@ == b@,
            forall|j: int| 0 <= j < i ==> ca@[j] == cb@[j],
        decreases ca.len() - i,
    {
        if ca[i] != cb[i] {
            assert(ca@[i as int] != cb@[i as int]);
            return false;
        }
        i = i + 1;
    }
    assert(ca@ =~= cb@);
    true
}

fn k_clone(s: &String) -> (r: String)
    ensures
        r@ == s@,
{
    s.clone()
}

/// Puts `x` at position `i` and gives back what stood there.
pub fn vec_replace<T>(v: &mut Vec<T>, i: usize, x: T) -> (previous: T)
    requires
        i < old(v).len(),
    ensures
        previous == old(v)@[i as int],
        final(v)@ == old(v)@.update(i as int, x),
{
    v.push(x);
    let previous = v.swap_remove(i);
    previous
}

} // verus!
