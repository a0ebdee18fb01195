//! A small map from node identifiers to per-node values, kept as a list of
//! pairs in which no identifier occurs twice. Its model is a finite `Map`
//! from the identifiers' character sequences to the values' models.
use vstd::prelude::*;

verus! {

/// A map keyed by node identifier: a list of (identifier, value) pairs in
/// which no identifier occurs twice, whose model is the finite map from
/// each identifier's characters to its value's model. Lookups and inserts
/// scan the list, so they take time linear in the number of keys; the
/// values can be visited in order, as counting replicas needs.
#[derive(Debug)]
pub struct PeerMap<V> {
    entries: Vec<(String, V)>,
}

/// The keys of a list of pairs, as character sequences.
pub open spec fn keys_of<V>(s: Seq<(String, V)>) -> Seq<Seq<char>> {
    s.map_values(|e: (String, V)| e.0@)
}

/// In a sequence without duplicates, the index of an element is where it stands.
proof fn lemma_index_of_unique(keys: Seq<Seq<char>>, i: int)
    requires
        keys.no_duplicates(),
        0 <= i < keys.len(),
    ensures
        keys.index_of(keys[i]) == i,
{
    assert(keys.contains(keys[i]));
}

/// The map that a list of pairs without repeated keys stands for.
pub open spec fn model_of<V: View>(s: Seq<(String, V)>) -> Map<Seq<char>, V::V> {
    let keys = keys_of(s);
    Map::new(|k: Seq<char>| keys.contains(k), |k: Seq<char>| s[keys.index_of(k)].1@)
}

/// Appending a pair with a new key inserts that key into the map.
proof fn lemma_model_push<V: View>(s: Seq<(String, V)>, e: (String, V))
    requires
        keys_of(s).no_duplicates(),
        !keys_of(s).contains(e.0@),
    ensures
        keys_of(s.push(e)).no_duplicates(),
        model_of(s.push(e)) == model_of(s).insert(e.0@, e.1@),
{
    let old_keys = keys_of(s);
    let keys = keys_of(s.push(e));
    let kv = e.0@;
    assert(keys =~= old_keys.push(kv));
    assert forall|a: int, b: int|
        0 <= a < keys.len() && 0 <= b < keys.len() && a != b implies keys[a] != keys[b] by {
        if a < old_keys.len() && b < old_keys.len() {
        } else if a < old_keys.len() {
            assert(old_keys[a] == keys[a]);
        } else {
            assert(old_keys[b] == keys[b]);
        }
    }
    assert forall|x: Seq<char>| #[trigger] old_keys.contains(x) implies keys.contains(x)
        && keys.index_of(x) == old_keys.index_of(x) by {
        let j = old_keys.index_of(x);
        assert(keys[j] == old_keys[j]);
        lemma_index_of_unique(keys, j);
    }
    assert forall|x: Seq<char>| #[trigger] keys.contains(x) implies old_keys.contains(x) || x
        == kv by {
        let j = keys.index_of(x);
        if j < old_keys.len() {
            assert(old_keys[j] == keys[j]);
        }
    }
    lemma_index_of_unique(keys, old_keys.len() as int);
    assert forall|x: Seq<char>| #[trigger] old_keys.contains(x) implies model_of(s.push(e))[x]
        == model_of(s)[x] by {
        let j = old_keys.index_of(x);
        assert(s.push(e)[j] == s[j]);
    }
    assert(model_of(s.push(e)) =~= model_of(s).insert(kv, e.1@));
}

/// The number of pairs whose value is at least `bound`.
pub open spec fn count_at_least_seq(s: Seq<(String, usize)>, bound: usize) -> nat
    decreases s.len(),
{
    if s.len() == 0 {
        0
    } else {
        count_at_least_seq(s.drop_last(), bound) + if s.last().1 >= bound {
            1nat
        } else {
            0nat
        }
    }
}

/// The keys of `m` whose value is at least `bound`.
pub open spec fn keys_at_least(m: Map<Seq<char>, usize>, bound: usize) -> Set<Seq<char>> {
    m.dom().filter(|k: Seq<char>| m[k] >= bound)
}

/// Counting pairs of a list without repeated keys counts the keys of its map.
proof fn lemma_count_at_least(s: Seq<(String, usize)>, bound: usize)
    requires
        keys_of(s).no_duplicates(),
    ensures
        keys_at_least(model_of(s), bound).finite(),
        count_at_least_seq(s, bound) == keys_at_least(model_of(s), bound).len(),
    decreases s.len(),
{
    broadcast use vstd::seq_lib::seq_to_set_is_finite;

    if s.len() == 0 {
        assert(keys_at_least(model_of(s), bound) =~= Set::<Seq<char>>::empty());
    } else {
        let prefix = s.drop_last();
        let e = s.last();
        assert(prefix.push(e) =~= s);
        assert(keys_of(prefix) =~= keys_of(s).drop_last());
        assert(keys_of(s)[s.len() - 1] == e.0@);
        assert(!keys_of(prefix).contains(e.0@)) by {
            if keys_of(prefix).contains(e.0@) {
                let j = keys_of(prefix).index_of(e.0@);
                assert(keys_of(s)[j] == e.0@);
            }
        }
        lemma_count_at_least(prefix, bound);
        lemma_model_push(prefix, e);
        let before = keys_at_least(model_of(prefix), bound);
        let after = keys_at_least(model_of(s), bound);
        assert(!model_of(prefix).contains_key(e.0@));
        assert(!before.contains(e.0@));
        if e.1 >= bound {
            assert(after =~= before.insert(e.0@));
        } else {
            assert(after =~= before);
        }
    }
}

impl<V: View> View for PeerMap<V> {
    type V = Map<Seq<char>, V::V>;

    closed spec fn view(&self) -> Map<Seq<char>, V::V> {
        model_of(self.entries@)
    }
}

impl<V: View> PeerMap<V> {
    /// No identifier occurs twice.
    pub closed spec fn wf(&self) -> bool {
        keys_of(self.entries@).no_duplicates()
    }

    /// The model's domain is finite and has as many keys as the list has pairs.
    proof fn lemma_finite(&self)
        requires
            self.wf(),
        ensures
            self@.dom().finite(),
            self@.dom().len() == self.entries@.len(),
    {
        let keys = keys_of(self.entries@);
        broadcast use vstd::seq_lib::seq_to_set_is_finite;

        assert(self@.dom() =~= keys.to_set());
        keys.unique_seq_to_set();
    }

    /// A well-formed map has finitely many keys.
    pub proof fn lemma_wf_finite(&self)
        requires
            self.wf(),
        ensures
            self@.dom().finite(),
    {
        self.lemma_finite();
    }

    /// An empty map.
    pub fn new() -> (m: PeerMap<V>)
        ensures
            m.wf(),
            m@ == Map::<Seq<char>, V::V>::empty(),
    {
        let m = PeerMap { entries: Vec::new() };
        assert(m@ =~= Map::<Seq<char>, V::V>::empty());
        m
    }

    /// The number of keys.
    pub fn len(&self) -> (r: usize)
        requires
            self.wf(),
        ensures
            r == self@.len(),
            self@.dom().finite(),
    {
        proof {
            self.lemma_finite();
        }
        self.entries.len()
    }

    /// Where `k` stands in the list, if anywhere.
    fn position(&self, k: &String) -> (r: Option<usize>)
        requires
            self.wf(),
        ensures
            match r {
                Some(i) => i < self.entries@.len() && self.entries@[i as int].0@ == k@
                    && self@.contains_key(k@),
                None => !self@.contains_key(k@),
            },
    {
        let mut i: usize = 0;
        while i < self.entries.len()
            invariant
                i <= self.entries@.len(),
                forall|j: int| 0 <= j < i ==> self.entries@[j].0@ != k@,
            decreases self.entries@.len() - i,
        {
            if self.entries[i].0 == *k {
                assert(keys_of(self.entries@)[i as int] == k@);
                return Some(i);
            }
            i = i + 1;
        }
        proof {
            let keys = keys_of(self.entries@);
            if keys.contains(k@) {
                let j = choose|j: int| 0 <= j < keys.len() && keys[j] == k@;
                assert(self.entries@[j].0@ == k@);
            }
        }
        None
    }

    /// Whether `k` is a key.
    pub fn contains_key(&self, k: &String) -> (r: bool)
        requires
            self.wf(),
        ensures
            r == self@.contains_key(k@),
    {
        self.position(k).is_some()
    }

    /// The value stored under `k`, if any.
    pub fn get(&self, k: &String) -> (r: Option<&V>)
        requires
            self.wf(),
        ensures
            match r {
                Some(v) => self@.contains_key(k@) && v@ == self@[k@],
                None => !self@.contains_key(k@),
            },
    {
        match self.position(k) {
            Some(i) => {
                proof {
                    lemma_index_of_unique(keys_of(self.entries@), i as int);
                }
                Some(&self.entries[i].1)
            },
            None => None,
        }
    }

    /// Store `v` under `k`, replacing any earlier value.
    pub fn insert(&mut self, k: String, v: V)
        requires
            old(self).wf(),
        ensures
            final(self).wf(),
            final(self)@ == old(self)@.insert(k@, v@),
    {
        let ghost old_entries = self.entries@;
        let ghost old_keys = keys_of(old_entries);
        match self.position(&k) {
            Some(i) => {
                let ghost kv = k@;
                let ghost vv = v@;
                self.entries.set(i, (k, v));
                proof {
                    let keys = keys_of(self.entries@);
                    assert(keys =~= old_keys);
                    assert forall|x: Seq<char>| #[trigger] keys.contains(x) && x != kv implies
                        self@[x] == old_entries[old_keys.index_of(x)].1@ by {
                        let j = keys.index_of(x);
                        if j == i {
                            assert(keys[j] == kv);
                        } else {
                            assert(self.entries@[j] == old_entries[j]);
                        }
                    }
                    lemma_index_of_unique(keys, i as int);
                    assert(self@[kv] == vv);
                    assert(self@ =~= old(self)@.insert(kv, vv));
                }
            },
            None => {
                self.entries.push((k, v));
                proof {
                    lemma_model_push(old_entries, (k, v));
                }
            },
        }
    }

    /// Remove every key.
    pub fn clear(&mut self)
        ensures
            final(self).wf(),
            final(self)@ == Map::<Seq<char>, V::V>::empty(),
    {
        self.entries.clear();
        assert(self@ =~= Map::<Seq<char>, V::V>::empty());
    }
}

impl PeerMap<usize> {
    /// The number of keys whose value is at least `bound`.
    pub fn count_at_least(&self, bound: usize) -> (r: usize)
        requires
            self.wf(),
        ensures
            r == keys_at_least(self@, bound).len(),
            r <= self@.len(),
    {
        let mut count: usize = 0;
        let mut i: usize = 0;
        while i < self.entries.len()
            invariant
                i <= self.entries@.len(),
                count == count_at_least_seq(self.entries@.take(i as int), bound),
                count <= i,
            decreases self.entries@.len() - i,
        {
            assert(self.entries@.take(i + 1).drop_last() =~= self.entries@.take(i as int));
            if self.entries[i].1 >= bound {
                count = count + 1;
            }
            i = i + 1;
        }
        proof {
            assert(self.entries@.take(i as int) =~= self.entries@);
            lemma_count_at_least(self.entries@, bound);
            self.lemma_finite();
            vstd::set_lib::lemma_len_subset(keys_at_least(self@, bound), self@.dom());
        }
        count
    }
}

} // verus!
