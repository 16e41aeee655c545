//! A map from header names to header values that keeps its entries in the
//! order their names were first inserted.
use vstd::prelude::*;
use crate::text::str_eq;

verus! {

/// The map that a list of entries stands for: later entries win.
pub open spec fn entries_map(es: Seq<(Seq<char>, Seq<char>)>) -> Map<Seq<char>, Seq<char>>
    decreases es.len(),
{
    if es.len() == 0 {
        Map::empty()
    } else {
        entries_map(es.drop_last()).insert(es.last().0, es.last().1)
    }
}

/// No name occurs twice.
pub open spec fn keys_distinct(es: Seq<(Seq<char>, Seq<char>)>) -> bool {
    forall|i: int, j: int| 0 <= i < j < es.len() ==> es[i].0 != es[j].0
}

/// The index of the entry named `k`, if any.
pub open spec fn key_index(es: Seq<(Seq<char>, Seq<char>)>, k: Seq<char>) -> Option<int>
    decreases es.len(),
{
    if es.len() == 0 {
        None
    } else if es.last().0 == k {
        Some(es.len() - 1)
    } else {
        key_index(es.drop_last(), k)
    }
}

/// The entries after inserting `k` with value `v`: the value of an existing
/// entry named `k` is replaced in place, otherwise the entry goes last.
pub open spec fn entries_insert(es: Seq<(Seq<char>, Seq<char>)>, k: Seq<char>, v: Seq<char>) -> Seq<(Seq<char>, Seq<char>)> {
    match key_index(es, k) {
        Some(i) => es.update(i, (k, v)),
        None => es.push((k, v)),
    }
}

/// Where `key_index` finds a name, the entry has it; where it finds none, no
/// entry has it.
pub proof fn lemma_key_index(es: Seq<(Seq<char>, Seq<char>)>, k: Seq<char>)
    ensures
        key_index(es, k) matches Some(i) ==> 0 <= i < es.len() && es[i].0 == k,
        key_index(es, k) is None ==> forall|i: int| 0 <= i < es.len() ==> es[i].0 != k,
    decreases es.len(),
{
    if es.len() > 0 {
        lemma_key_index(es.drop_last(), k);
        if es.last().0 != k {
            assert forall|i: int| 0 <= i < es.len() - 1 implies es[i] == es.drop_last()[i] by {}
        }
    }
}

/// A name is in the map exactly when an entry has it, and with distinct names
/// its value is that entry's value.
pub proof fn lemma_entries_map(es: Seq<(Seq<char>, Seq<char>)>, k: Seq<char>)
    requires
        keys_distinct(es),
    ensures
        entries_map(es).contains_key(k) <==> key_index(es, k) is Some,
        key_index(es, k) matches Some(i) ==> entries_map(es)[k] == es[i].1,
    decreases es.len(),
{
    lemma_key_index(es, k);
    if es.len() > 0 {
        let d = es.drop_last();
        assert forall|i: int, j: int| 0 <= i < j < d.len() implies d[i].0 != d[j].0 by {
            assert(d[i] == es[i] && d[j] == es[j]);
        }
        lemma_entries_map(d, k);
        lemma_key_index(d, k);
    }
}

/// With distinct names, each header of the map is exactly one entry, and
/// every entry is a header of the map.
pub proof fn law_each_header_once(es: Seq<(Seq<char>, Seq<char>)>)
    requires
        keys_distinct(es),
    ensures
        forall|i: int| #![trigger es[i]] 0 <= i < es.len() ==> entries_map(es).contains_key(es[i].0) && entries_map(es)[es[i].0] == es[i].1,
        forall|k: Seq<char>| #[trigger] entries_map(es).contains_key(k) ==> exists|i: int| 0 <= i < es.len() && #[trigger] es[i] == (k, entries_map(es)[k]),
        forall|i: int, j: int| 0 <= i < es.len() && 0 <= j < es.len() && #[trigger] es[i].0 == #[trigger] es[j].0 ==> i == j,
{
    assert forall|i: int| #![trigger es[i]] 0 <= i < es.len() implies entries_map(es).contains_key(es[i].0) && entries_map(es)[es[i].0] == es[i].1 by {
        lemma_entries_map(es, es[i].0);
        lemma_key_index(es, es[i].0);
        let t = key_index(es, es[i].0)->0;
        if t != i {
            if t < i {
                assert(es[t].0 != es[i].0);
            } else {
                assert(es[i].0 != es[t].0);
            }
        }
    }
    assert forall|k: Seq<char>| #[trigger] entries_map(es).contains_key(k) implies exists|i: int| 0 <= i < es.len() && #[trigger] es[i] == (k, entries_map(es)[k]) by {
        lemma_entries_map(es, k);
        lemma_key_index(es, k);
        let t = key_index(es, k)->0;
        assert(es[t] == (k, entries_map(es)[k]));
    }
    assert forall|i: int, j: int| 0 <= i < es.len() && 0 <= j < es.len() && #[trigger] es[i].0 == #[trigger] es[j].0 implies i == j by {
        if i < j {
            assert(es[i].0 != es[j].0);
        } else if j < i {
            assert(es[j].0 != es[i].0);
        }
    }
}

/// Inserting into the entries inserts into the map, and names stay distinct.
pub proof fn lemma_entries_insert(es: Seq<(Seq<char>, Seq<char>)>, k: Seq<char>, v: Seq<char>)
    requires
        keys_distinct(es),
    ensures
        keys_distinct(entries_insert(es, k, v)),
        entries_map(entries_insert(es, k, v)) == entries_map(es).insert(k, v),
    decreases es.len(),
{
    lemma_key_index(es, k);
    match key_index(es, k) {
        Some(i) => {
            lemma_update_map(es, i, k, v);
        },
        None => {
            assert(es.push((k, v)).drop_last() =~= es);
        },
    }
}

/// Replacing the value of the entry named `k` inserts into the map.
proof fn lemma_update_map(es: Seq<(Seq<char>, Seq<char>)>, i: int, k: Seq<char>, v: Seq<char>)
    requires
        keys_distinct(es),
        0 <= i < es.len(),
        es[i].0 == k,
    ensures
        keys_distinct(es.update(i, (k, v))),
        entries_map(es.update(i, (k, v))) == entries_map(es).insert(k, v),
    decreases es.len(),
{
    let nes = es.update(i, (k, v));
    if i == es.len() - 1 {
        assert(nes.drop_last() =~= es.drop_last());
        assert(entries_map(nes) =~= entries_map(es).insert(k, v));
    } else {
        lemma_update_map(es.drop_last(), i, k, v);
        assert(nes.drop_last() =~= es.drop_last().update(i, (k, v)));
        assert(es.last().0 != k);
        assert(entries_map(nes) =~= entries_map(es).insert(k, v));
    }
}

/// Names and values of stored entries, as character sequences.
pub open spec fn view_entries(es: Seq<(String, String)>) -> Seq<(Seq<char>, Seq<char>)> {
    es.map_values(|e: (String, String)| (e.0@, e.1@))
}

/// Header names and values. Inserting a name that is present replaces its
/// value; the entries keep the order in which their names first came.
#[derive(Debug)]
pub struct Headers {
    entries: Vec<(String, String)>,
}

impl View for Headers {
    type V = Map<Seq<char>, Seq<char>>;

    open spec fn view(&self) -> Map<Seq<char>, Seq<char>> {
        entries_map(self.entries_view())
    }
}

impl Headers {
    /// The entries, in order.
    pub closed spec fn entries_view(&self) -> Seq<(Seq<char>, Seq<char>)> {
        view_entries(self.entries@)
    }

    #[verifier::type_invariant]
    closed spec fn inv(&self) -> bool {
        keys_distinct(self.entries_view())
    }

    /// No headers.
    pub fn new() -> (r: Self)
        ensures
            r.entries_view() == Seq::<(Seq<char>, Seq<char>)>::empty(),
            r@ == Map::<Seq<char>, Seq<char>>::empty(),
    {
        let r = Headers { entries: Vec::new() };
        assert(r.entries_view() =~= Seq::<(Seq<char>, Seq<char>)>::empty());
        r
    }

    /// The number of entries; no name occurs twice among them, so each header
    /// of the map is one entry (see `lemma_entries_map`).
    pub fn len(&self) -> (r: usize)
        ensures
            r == self.entries_view().len(),
            keys_distinct(self.entries_view()),
    {
        proof {
            use_type_invariant(self);
        }
        self.entries.len()
    }

    /// Entry `i`: a name and its value.
    pub fn entry(&self, i: usize) -> (r: (&String, &String))
        requires
            i < self.entries_view().len(),
        ensures
            (r.0@, r.1@) == self.entries_view()[i as int],
    {
        let e = &self.entries[i];
        (&e.0, &e.1)
    }

    /// Sets the value of `key`.
    pub fn insert(&mut self, key: String, value: String)
        ensures
            final(self).entries_view() == entries_insert(old(self).entries_view(), key@, value@),
            final(self)@ == old(self)@.insert(key@, value@),
    {
        proof {
            use_type_invariant(&*self);
            lemma_entries_insert(self.entries_view(), key@, value@);
        }
        let ghost es = self.entries_view();
        let ghost k = key@;
        let n = self.entries.len();
        let mut i: usize = 0;
        while i < n
            invariant
                n == self.entries@.len(),
                es == self.entries_view(),
                keys_distinct(es),
                keys_distinct(entries_insert(es, k, value@)),
                entries_map(entries_insert(es, k, value@)) == entries_map(es).insert(k, value@),
                es == old(self).entries_view(),
                k == key@,
                i <= n,
                forall|j: int| 0 <= j < i ==> es[j].0 != k,
            decreases n - i,
        {
            assert(es[i as int].0 == self.entries@[i as int].0@);
            let same = self.entries[i].0 == key;
            assert(same == (self.entries@[i as int].0@ == key@));
            if same {
                proof {
                    lemma_key_index(es, k);
                    if let Some(t) = key_index(es, k) {
                        if t < i {
                            assert(es[t].0 != es[i as int].0);
                        } else if t > i {
                            assert(es[i as int].0 != es[t].0);
                        }
                    }
                }
                let ghost old_entries = self.entries@;
                let mut entries = Vec::new();
                std::mem::swap(&mut entries, &mut self.entries);
                assert(entries@ == old_entries);
                let ghost v = value@;
                entries.set(i, (key, value));
                assert(entries@ == old_entries.update(i as int, entries@[i as int]));
                assert(entries@[i as int].0@ == k && entries@[i as int].1@ == v);
                assert forall|j: int| 0 <= j < es.len() implies #[trigger] view_entries(entries@)[j] == es.update(i as int, (k, v))[j] by {
                    if j != i {
                        assert(entries@[j] == old_entries[j]);
                    }
                }
                assert(view_entries(entries@) =~= es.update(i as int, (k, v)));
                self.entries = entries;
                assert(self.entries_view() =~= es.update(i as int, (k, value@)));
                return;
            }
            i = i + 1;
        }
        proof {
            lemma_key_index(es, k);
            if let Some(t) = key_index(es, k) {
                assert(es[t].0 == k);
            }
        }
        let ghost old_entries = self.entries@;
        let mut entries = Vec::new();
        std::mem::swap(&mut entries, &mut self.entries);
        assert(entries@ == old_entries);
        entries.push((key, value));
        assert(view_entries(entries@) =~= es.push((k, value@)));
        self.entries = entries;
        assert(self.entries_view() =~= es.push((k, value@)));
    }

    /// The value of `key`, if present.
    pub fn get(&self, key: &str) -> (r: Option<&String>)
        ensures
            r is Some <==> self@.contains_key(key@),
            r matches Some(v) ==> self@[key@] == v@,
    {
        proof {
            use_type_invariant(self);
            lemma_entries_map(self.entries_view(), key@);
            lemma_key_index(self.entries_view(), key@);
        }
        let ghost es = self.entries_view();
        let n = self.entries.len();
        let mut i: usize = 0;
        while i < n
            invariant
                n == self.entries@.len(),
                es == self.entries_view(),
                keys_distinct(es),
                i <= n,
                forall|j: int| 0 <= j < i ==> es[j].0 != key@,
            decreases n - i,
        {
            assert(es[i as int].0 == self.entries@[i as int].0@);
            if str_eq(self.entries[i].0.as_str(), key) {
                proof {
                    lemma_key_index(es, key@);
                    lemma_entries_map(es, key@);
                    if let Some(t) = key_index(es, key@) {
                        if t < i {
                            assert(es[t].0 != es[i as int].0);
                        } else if t > i {
                            assert(es[i as int].0 != es[t].0);
                        }
                    }
                }
                return Some(&self.entries[i].1);
            }
            i = i + 1;
        }
        proof {
            lemma_entries_map(es, key@);
            lemma_key_index(es, key@);
        }
        None
    }
}

} // verus!
