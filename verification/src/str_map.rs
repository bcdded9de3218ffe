//! A map with string keys, kept in key order.
use vstd::prelude::*;

use crate::text::{compare_keys, key_lt, lemma_key_lt_irreflexive, lemma_key_lt_transitive, KeyOrder};

verus! {

/// The keys of a sequence of entries, as character sequences.
pub open spec fn keys_of<V>(s: Seq<(String, V)>) -> Seq<Seq<char>> {
    s.map_values(|e: (String, V)| e.0@)
}

/// Every key comes strictly before the keys after it.
pub open spec fn sorted_keys(ks: Seq<Seq<char>>) -> bool {
    forall|i: int, j: int| 0 <= i < j < ks.len() ==> key_lt(#[trigger] ks[i], #[trigger] ks[j])
}

/// Whether some entry of `s` has the key `k`.
pub open spec fn has_key<V>(s: Seq<(String, V)>, k: Seq<char>) -> bool {
    exists|i: int| 0 <= i < s.len() && #[trigger] s[i].0@ == k
}

/// A position of `s` that holds the key `k`, where there is one.
pub open spec fn key_pos<V>(s: Seq<(String, V)>, k: Seq<char>) -> int {
    choose|i: int| 0 <= i < s.len() && #[trigger] s[i].0@ == k
}

/// The map that a sequence of entries stands for.
pub open spec fn map_of<V>(s: Seq<(String, V)>) -> Map<Seq<char>, V> {
    Map::new(|k: Seq<char>| has_key(s, k), |k: Seq<char>| s[key_pos(s, k)].1)
}

proof fn lemma_sorted_distinct(ks: Seq<Seq<char>>, i: int, j: int)
    requires
        sorted_keys(ks),
        0 <= i < ks.len(),
        0 <= j < ks.len(),
        i != j,
    ensures
        ks[i] != ks[j],
{
    lemma_key_lt_irreflexive(ks[i]);
    if i < j {
        assert(key_lt(ks[i], ks[j]));
    } else {
        assert(key_lt(ks[j], ks[i]));
    }
}

proof fn lemma_map_of_at<V>(s: Seq<(String, V)>, i: int)
    requires
        sorted_keys(keys_of(s)),
        0 <= i < s.len(),
    ensures
        map_of(s).contains_key(s[i].0@),
        map_of(s)[s[i].0@] == s[i].1,
{
    let k = s[i].0@;
    assert(has_key(s, k));
    let j = key_pos(s, k);
    if j != i {
        assert(keys_of(s)[i] == k);
        assert(keys_of(s)[j] == k);
        lemma_sorted_distinct(keys_of(s), i, j);
    }
    assert(map_of(s)[k] == s[j].1);
}

proof fn lemma_map_of_len<V>(s: Seq<(String, V)>)
    requires
        sorted_keys(keys_of(s)),
    ensures
        map_of(s).dom() == keys_of(s).to_set(),
        map_of(s).len() == s.len(),
        map_of(s).dom().finite(),
{
    let ks = keys_of(s);
    assert(map_of(s).dom() =~= ks.to_set()) by {
        assert forall|k: Seq<char>| map_of(s).dom().contains(k) implies ks.to_set().contains(k) by {
            let i = choose|i: int| 0 <= i < s.len() && #[trigger] s[i].0@ == k;
            assert(ks[i] == k);
        }
        assert forall|k: Seq<char>| ks.to_set().contains(k) implies map_of(s).dom().contains(k) by {
            let i = choose|i: int| 0 <= i < ks.len() && ks[i] == k;
            assert(s[i].0@ == k);
        }
    }
    assert(ks.no_duplicates()) by {
        assert forall|i: int, j: int| 0 <= i < ks.len() && 0 <= j < ks.len() && i != j implies ks[i]
            != ks[j] by {
            lemma_sorted_distinct(ks, i, j);
        }
    }
    ks.unique_seq_to_set();
    vstd::seq_lib::seq_to_set_is_finite(ks);
}

/// Where `key` stands, or would stand, among the entries of `s`.
fn position_for<V>(s: &Vec<(String, V)>, key: &str) -> (r: (usize, bool))
    requires
        sorted_keys(keys_of(s@)),
    ensures
        r.0 <= s.len(),
        forall|j: int| 0 <= j < r.0 ==> key_lt(#[trigger] s@[j].0@, key@),
        r.1 ==> r.0 < s.len() && s@[r.0 as int].0@ == key@,
        !r.1 ==> r.0 == s.len() || key_lt(key@, s@[r.0 as int].0@),
{
    let mut i: usize = 0;
    while i < s.len()
        invariant
            i <= s.len(),
            forall|j: int| 0 <= j < i ==> key_lt(#[trigger] s@[j].0@, key@),
        decreases s.len() - i,
    {
        match compare_keys(s[i].0.as_str(), key) {
            KeyOrder::Less => {},
            KeyOrder::Equal => {
                return (i, true);
            },
            KeyOrder::Greater => {
                return (i, false);
            },
        }
        i = i + 1;
    }
    (i, false)
}

proof fn lemma_insert_entry<V>(s: Seq<(String, V)>, pos: int, e: (String, V))
    requires
        sorted_keys(keys_of(s)),
        0 <= pos <= s.len(),
        forall|j: int| 0 <= j < pos ==> key_lt(#[trigger] s[j].0@, e.0@),
        pos < s.len() ==> key_lt(e.0@, s[pos].0@),
    ensures
        sorted_keys(keys_of(s.insert(pos, e))),
        map_of(s.insert(pos, e)) == map_of(s).insert(e.0@, e.1),
{
    let t = s.insert(pos, e);
    let ks = keys_of(s);
    let kt = keys_of(t);
    assert forall|i: int, j: int| 0 <= i < j < kt.len() implies key_lt(#[trigger] kt[i], #[trigger] kt[j]) by {
        if j < pos {
            assert(kt[i] == ks[i] && kt[j] == ks[j]);
        } else if j == pos {
            assert(kt[i] == ks[i]);
        } else if i < pos {
            assert(kt[i] == ks[i] && kt[j] == ks[j - 1]);
            if j - 1 > pos {
                assert(key_lt(ks[pos], ks[j - 1]));
                lemma_key_lt_transitive(e.0@, ks[pos], ks[j - 1]);
            }
            lemma_key_lt_transitive(ks[i], e.0@, ks[j - 1]);
        } else if i == pos {
            assert(kt[j] == ks[j - 1]);
            if j - 1 > pos {
                assert(key_lt(ks[pos], ks[j - 1]));
                lemma_key_lt_transitive(e.0@, ks[pos], ks[j - 1]);
            }
        } else {
            assert(kt[i] == ks[i - 1] && kt[j] == ks[j - 1]);
        }
    }
    let m = map_of(s).insert(e.0@, e.1);
    assert forall|k: Seq<char>| #[trigger] m.contains_key(k) implies map_of(t).contains_key(k)
        && map_of(t)[k] == m[k] by {
        if k == e.0@ {
            lemma_map_of_at(t, pos);
        } else {
            let j = key_pos(s, k);
            lemma_map_of_at(s, j);
            if j < pos {
                assert(t[j] == s[j]);
                lemma_map_of_at(t, j);
            } else {
                assert(t[j + 1] == s[j]);
                lemma_map_of_at(t, j + 1);
            }
        }
    }
    assert forall|k: Seq<char>| #[trigger] map_of(t).contains_key(k) implies m.contains_key(k) by {
        let j = key_pos(t, k);
        if j < pos {
            assert(s[j].0@ == k);
        } else if j > pos {
            assert(s[j - 1].0@ == k);
        }
    }
    assert(map_of(t) =~= m);
}

proof fn lemma_replace_entry<V>(s: Seq<(String, V)>, pos: int, e: (String, V))
    requires
        sorted_keys(keys_of(s)),
        0 <= pos < s.len(),
        s[pos].0@ == e.0@,
    ensures
        sorted_keys(keys_of(s.update(pos, e))),
        map_of(s.update(pos, e)) == map_of(s).insert(e.0@, e.1),
{
    let t = s.update(pos, e);
    assert(keys_of(t) =~= keys_of(s));
    let m = map_of(s).insert(e.0@, e.1);
    assert forall|k: Seq<char>| #[trigger] m.contains_key(k) implies map_of(t).contains_key(k)
        && map_of(t)[k] == m[k] by {
        if k == e.0@ {
            lemma_map_of_at(t, pos);
        } else {
            let j = key_pos(s, k);
            lemma_map_of_at(s, j);
            assert(t[j] == s[j]);
            lemma_map_of_at(t, j);
        }
    }
    assert forall|k: Seq<char>| #[trigger] map_of(t).contains_key(k) implies m.contains_key(k) by {
        let j = key_pos(t, k);
        if j != pos {
            assert(s[j].0@ == k);
        }
    }
    assert(map_of(t) =~= m);
}

proof fn lemma_remove_entry<V>(s: Seq<(String, V)>, pos: int)
    requires
        sorted_keys(keys_of(s)),
        0 <= pos < s.len(),
    ensures
        sorted_keys(keys_of(s.remove(pos))),
        map_of(s.remove(pos)) == map_of(s).remove(s[pos].0@),
        map_of(s).contains_key(s[pos].0@),
        map_of(s)[s[pos].0@] == s[pos].1,
{
    let t = s.remove(pos);
    let ks = keys_of(s);
    let kt = keys_of(t);
    lemma_map_of_at(s, pos);
    assert forall|i: int, j: int| 0 <= i < j < kt.len() implies key_lt(#[trigger] kt[i], #[trigger] kt[j]) by {
        let i2 = if i < pos { i } else { i + 1 };
        let j2 = if j < pos { j } else { j + 1 };
        assert(kt[i] == ks[i2] && kt[j] == ks[j2]);
    }
    let m = map_of(s).remove(s[pos].0@);
    assert forall|k: Seq<char>| #[trigger] m.contains_key(k) implies map_of(t).contains_key(k)
        && map_of(t)[k] == m[k] by {
        let j = key_pos(s, k);
        lemma_map_of_at(s, j);
        assert(j != pos);
        if j < pos {
            assert(t[j] == s[j]);
            lemma_map_of_at(t, j);
        } else {
            assert(t[j - 1] == s[j]);
            lemma_map_of_at(t, j - 1);
        }
    }
    assert forall|k: Seq<char>| #[trigger] map_of(t).contains_key(k) implies m.contains_key(k) by {
        let j = key_pos(t, k);
        let j2 = if j < pos { j } else { j + 1 };
        assert(s[j2].0@ == k);
        if k == s[pos].0@ {
            lemma_sorted_distinct(ks, j2, pos);
        }
    }
    assert(map_of(t) =~= m);
}

/// The keys of the first entries of a sorted sequence are sorted, and their map grows by
/// one entry at a time.
pub proof fn lemma_map_of_prefix<V>(s: Seq<(String, V)>, n: int)
    requires
        sorted_keys(keys_of(s)),
        0 <= n < s.len(),
    ensures
        sorted_keys(keys_of(s.take(n))),
        !map_of(s.take(n)).contains_key(s[n].0@),
        map_of(s.take(n + 1)) == map_of(s.take(n)).insert(s[n].0@, s[n].1),
{
    let p = s.take(n);
    assert(keys_of(p) =~= keys_of(s).take(n));
    assert(s.take(n + 1) =~= p.insert(n, s[n]));
    assert forall|j: int| 0 <= j < n implies key_lt(#[trigger] p[j].0@, s[n].0@) by {
        assert(keys_of(s)[j] == p[j].0@);
        assert(keys_of(s)[n] == s[n].0@);
    }
    lemma_insert_entry(p, n, s[n]);
    if has_key(p, s[n].0@) {
        let j = key_pos(p, s[n].0@);
        assert(key_lt(p[j].0@, s[n].0@));
        lemma_key_lt_irreflexive(s[n].0@);
    }
}

/// A map from strings to `V`, whose entries are kept in the order of `key_lt`.
pub struct StrMap<V> {
    entries: Vec<(String, V)>,
}

impl<V> View for StrMap<V> {
    type V = Map<Seq<char>, V>;

    closed spec fn view(&self) -> Map<Seq<char>, V> {
        map_of(self.entries@)
    }
}

impl<V> StrMap<V> {
    /// The keys, in increasing order.
    pub closed spec fn key_seq(self) -> Seq<Seq<char>> {
        keys_of(self.entries@)
    }

    /// The values, in the order of their keys.
    pub closed spec fn value_seq(self) -> Seq<V> {
        self.entries@.map_values(|e: (String, V)| e.1)
    }

    /// The entries, keys taken by their views, in key order.
    pub closed spec fn entry_seq(self) -> Seq<(Seq<char>, V)> {
        self.entries@.map_values(|e: (String, V)| (e.0@, e.1))
    }

    /// The keys are strictly increasing.
    #[verifier::type_invariant]
    pub closed spec fn well_formed(self) -> bool {
        sorted_keys(keys_of(self.entries@))
    }

    /// What a well-formed map is: its keys in strictly increasing order, each mapped to the
    /// value at its position, and nothing else.
    pub proof fn lemma_well_formed(self)
        requires
            self.well_formed(),
        ensures
            sorted_keys(self.key_seq()),
            self.key_seq().len() == self.value_seq().len(),
            self.entry_seq().len() == self.key_seq().len(),
            forall|i: int|
                0 <= i < self.key_seq().len() ==> #[trigger] self.entry_seq()[i] == (
                    self.key_seq()[i],
                    self.value_seq()[i],
                ),
            self@.len() == self.key_seq().len(),
            self@.dom() == self.key_seq().to_set(),
            self@.dom().finite(),
            forall|i: int|
                0 <= i < self.key_seq().len() ==> #[trigger] self@.contains_key(self.key_seq()[i])
                    && self@[self.key_seq()[i]] == self.value_seq()[i],
            forall|k: Seq<char>|
                #[trigger] self@.contains_key(k) ==> exists|i: int|
                    0 <= i < self.key_seq().len() && #[trigger] self.key_seq()[i] == k,
    {
        let s = self.entries@;
        lemma_map_of_len(s);
        assert forall|i: int| 0 <= i < self.key_seq().len() implies #[trigger] self@.contains_key(
            self.key_seq()[i],
        ) && self@[self.key_seq()[i]] == self.value_seq()[i] by {
            lemma_map_of_at(s, i);
        }
        assert forall|k: Seq<char>| #[trigger] self@.contains_key(k) implies exists|i: int|
            0 <= i < self.key_seq().len() && #[trigger] self.key_seq()[i] == k by {
            let i = choose|i: int| 0 <= i < s.len() && #[trigger] s[i].0@ == k;
            assert(self.key_seq()[i] == k);
        }
    }

    /// An empty map.
    pub fn new() -> (m: Self)
        ensures
            m@ == Map::<Seq<char>, V>::empty(),
            m.key_seq().len() == 0,
    {
        let m = StrMap { entries: Vec::new() };
        assert(m@ =~= Map::<Seq<char>, V>::empty());
        m
    }

    /// The number of entries.
    pub fn len(&self) -> (n: usize)
        ensures
            n == self@.len(),
            n == self.key_seq().len(),
            n == self.entry_seq().len(),
            self.well_formed(),
    {
        proof {
            use_type_invariant(self);
            lemma_map_of_len(self.entries@);
        }
        self.entries.len()
    }

    /// The key at position `i` in key order.
    pub fn key_at(&self, i: usize) -> (k: &String)
        requires
            i < self.key_seq().len(),
        ensures
            k@ == self.key_seq()[i as int],
    {
        &self.entries[i].0
    }

    /// The value at position `i` in key order.
    pub fn value_at(&self, i: usize) -> (v: &V)
        requires
            i < self.key_seq().len(),
        ensures
            *v == self.value_seq()[i as int],
            self.entry_seq()[i as int] == (self.key_seq()[i as int], *v),
            self@.contains_key(self.key_seq()[i as int]),
            self@[self.key_seq()[i as int]] == *v,
    {
        proof {
            use_type_invariant(self);
            lemma_map_of_at(self.entries@, i as int);
        }
        &self.entries[i].1
    }

    /// The position of `key`, if it is a key of the map.
    fn find(&self, key: &str) -> (r: Option<usize>)
        ensures
            match r {
                Some(i) => i < self.key_seq().len() && self.key_seq()[i as int] == key@,
                None => !self@.contains_key(key@),
            },
    {
        proof {
            use_type_invariant(self);
        }
        let mut i: usize = 0;
        while i < self.entries.len()
            invariant
                i <= self.entries.len(),
                forall|j: int| 0 <= j < i ==> self.entries@[j].0@ != key@,
            decreases self.entries.len() - i,
        {
            match compare_keys(self.entries[i].0.as_str(), key) {
                KeyOrder::Equal => {
                    return Some(i);
                },
                _ => {},
            }
            i = i + 1;
        }
        None
    }

    /// The value for `key`, if there is one.
    pub fn get(&self, key: &str) -> (r: Option<&V>)
        ensures
            match r {
                Some(v) => self@.contains_key(key@) && *v == self@[key@],
                None => !self@.contains_key(key@),
            },
    {
        match self.find(key) {
            Some(i) => {
                proof {
                    use_type_invariant(self);
                    lemma_map_of_at(self.entries@, i as int);
                }
                Some(&self.entries[i].1)
            },
            None => None,
        }
    }

    /// Whether `key` is a key of the map.
    pub fn contains_key(&self, key: &str) -> (r: bool)
        ensures
            r == self@.contains_key(key@),
    {
        proof {
            use_type_invariant(self);
        }
        match self.find(key) {
            Some(i) => {
                proof {
                    lemma_map_of_at(self.entries@, i as int);
                }
                true
            },
            None => false,
        }
    }

    /// Sets the value for `key`, in place of any value it had.
    pub fn insert(&mut self, key: String, value: V)
        ensures
            final(self)@ == old(self)@.insert(key@, value),
    {
        proof {
            use_type_invariant(&*self);
        }
        let mut entries: Vec<(String, V)> = Vec::new();
        std::mem::swap(&mut entries, &mut self.entries);
        let (pos, found) = position_for(&entries, key.as_str());
        proof {
            if found {
                lemma_replace_entry(entries@, pos as int, (key, value));
            } else {
                lemma_insert_entry(entries@, pos as int, (key, value));
            }
        }
        if found {
            entries.set(pos, (key, value));
        } else {
            entries.insert(pos, (key, value));
        }
        self.entries = entries;
    }

    /// Takes the value for `key` out of the map, if there is one.
    pub fn remove(&mut self, key: &str) -> (r: Option<V>)
        ensures
            final(self)@ == old(self)@.remove(key@),
            match r {
                Some(v) => old(self)@.contains_key(key@) && v == old(self)@[key@],
                None => !old(self)@.contains_key(key@),
            },
    {
        proof {
            use_type_invariant(&*self);
        }
        let mut entries: Vec<(String, V)> = Vec::new();
        std::mem::swap(&mut entries, &mut self.entries);
        let (pos, found) = position_for(&entries, key);
        if found {
            proof {
                lemma_remove_entry(entries@, pos as int);
            }
            let (_, v) = entries.remove(pos);
            self.entries = entries;
            Some(v)
        } else {
            proof {
                if has_key(entries@, key@) {
                    let j = key_pos(entries@, key@);
                    if j < pos {
                        lemma_key_lt_irreflexive(key@);
                    } else if j > pos as int {
                        let ks = keys_of(entries@);
                        assert(key_lt(ks[pos as int], ks[j]));
                        lemma_key_lt_transitive(key@, entries@[pos as int].0@, key@);
                        lemma_key_lt_irreflexive(key@);
                    } else {
                        lemma_key_lt_irreflexive(key@);
                    }
                }
                assert(map_of(entries@).remove(key@) =~= map_of(entries@));
            }
            self.entries = entries;
            None
        }
    }

    /// The entries, in key order.
    pub fn into_pairs(self) -> (v: Vec<(String, V)>)
        ensures
            keys_of(v@) == self.key_seq(),
            v@.map_values(|e: (String, V)| e.1) == self.value_seq(),
            sorted_keys(keys_of(v@)),
            map_of(v@) == self@,
    {
        proof {
            use_type_invariant(&self);
        }
        self.entries
    }
}

} // verus!
