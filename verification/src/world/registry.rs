use vstd::prelude::*;

verus! {

/// The map from names to values held by the entries `s`, later entries winning.
pub open spec fn map_of<V>(s: Seq<(String, V)>) -> Map<Seq<char>, V>
    decreases s.len(),
{
    if s.len() == 0 {
        Map::empty()
    } else {
        map_of(s.drop_last()).insert(s.last().0@, s.last().1)
    }
}

/// No name occurs twice among the entries `s`.
pub open spec fn distinct_names<V>(s: Seq<(String, V)>) -> bool {
    forall|i: int, j: int| 0 <= i < j < s.len() ==> #[trigger] s[i].0@ != #[trigger] s[j].0@
}

proof fn lemma_map_of_domain<V>(s: Seq<(String, V)>, k: Seq<char>)
    ensures
        map_of(s).contains_key(k) <==> exists|i: int| 0 <= i < s.len() && #[trigger] s[i].0@ == k,
    decreases s.len(),
{
    if s.len() > 0 {
        lemma_map_of_domain(s.drop_last(), k);
        if map_of(s).contains_key(k) {
            if k == s.last().0@ {
                assert(s[s.len() - 1].0@ == k);
            } else {
                let i = choose|i: int| 0 <= i < s.drop_last().len() && #[trigger] s.drop_last()[i].0@ == k;
                assert(s[i].0@ == k);
            }
        }
        if exists|i: int| 0 <= i < s.len() && #[trigger] s[i].0@ == k {
            let i = choose|i: int| 0 <= i < s.len() && #[trigger] s[i].0@ == k;
            if i < s.len() - 1 {
                assert(s.drop_last()[i].0@ == k);
            }
        }
    }
}

proof fn lemma_map_of_value<V>(s: Seq<(String, V)>, i: int)
    requires
        distinct_names(s),
        0 <= i < s.len(),
    ensures
        map_of(s).contains_key(s[i].0@),
        map_of(s)[s[i].0@] == s[i].1,
    decreases s.len(),
{
    if i < s.len() - 1 {
        assert(distinct_names(s.drop_last()));
        assert(s.drop_last()[i] == s[i]);
        lemma_map_of_value(s.drop_last(), i);
        assert(s[i].0@ != s[s.len() - 1].0@);
    }
}

proof fn lemma_map_of_update<V>(s: Seq<(String, V)>, i: int, key: String, value: V)
    requires
        distinct_names(s),
        0 <= i < s.len(),
        s[i].0@ == key@,
    ensures
        map_of(s.update(i, (key, value))) == map_of(s).insert(key@, value),
    decreases s.len(),
{
    let t = s.update(i, (key, value));
    if i == s.len() - 1 {
        assert(t.drop_last() =~= s.drop_last());
        assert(map_of(t) =~= map_of(s).insert(key@, value));
    } else {
        assert(distinct_names(s.drop_last()));
        lemma_map_of_update(s.drop_last(), i, key, value);
        assert(t.drop_last() =~= s.drop_last().update(i, (key, value)));
        assert(s[i].0@ != s[s.len() - 1].0@);
        assert(map_of(t) =~= map_of(s).insert(key@, value));
    }
}

proof fn lemma_map_of_len<V>(s: Seq<(String, V)>)
    requires
        distinct_names(s),
    ensures
        map_of(s).dom().finite(),
        map_of(s).len() == s.len(),
    decreases s.len(),
{
    if s.len() > 0 {
        assert(distinct_names(s.drop_last()));
        lemma_map_of_len(s.drop_last());
        lemma_map_of_domain(s.drop_last(), s.last().0@);
        if map_of(s.drop_last()).contains_key(s.last().0@) {
            let i = choose|i: int| 0 <= i < s.drop_last().len() && #[trigger] s.drop_last()[i].0@ == s.last().0@;
            assert(s[i].0@ == s[s.len() - 1].0@);
        }
    }
}

/// A map from names to values; the names are compared by their characters.
pub struct Registry<V> {
    entries: Vec<(String, V)>,
}

impl<V> Registry<V> {
    #[verifier::type_invariant]
    spec fn inv(self) -> bool {
        distinct_names(self.entries@)
    }

    /// The names and the values they map to.
    pub closed spec fn view(self) -> Map<Seq<char>, V> {
        map_of(self.entries@)
    }

    pub fn new() -> (r: Self)
        ensures
            r@ == Map::<Seq<char>, V>::empty(),
    {
        Self { entries: Vec::new() }
    }

    /// Position of the entry named `key`.
    fn position(&self, key: &String) -> (r: Option<usize>)
        ensures
            match r {
                Some(i) => i < self.entries@.len() && self.entries@[i as int].0@ == key@,
                None => forall|i: int| 0 <= i < self.entries@.len() ==> #[trigger] self.entries@[i].0@ != key@,
            },
    {
        let mut i: usize = 0;
        while i < self.entries.len()
            invariant
                i <= self.entries@.len(),
                forall|j: int| 0 <= j < i ==> #[trigger] self.entries@[j].0@ != key@,
            decreases self.entries@.len() - i,
        {
            if self.entries[i].0 == *key {
                return Some(i);
            }
            i = i + 1;
        }
        None
    }

    /// The value named `key`.
    pub fn get(&self, key: &String) -> (r: Option<&V>)
        ensures
            match r {
                Some(v) => self@.contains_key(key@) && self@[key@] == *v,
                None => !self@.contains_key(key@),
            },
    {
        proof {
            use_type_invariant(self);
            lemma_map_of_domain(self.entries@, key@);
        }
        match self.position(key) {
            Some(i) => {
                proof {
                    lemma_map_of_value(self.entries@, i as int);
                }
                Some(&self.entries[i].1)
            },
            None => None,
        }
    }

    /// Whether a value is named `key`.
    pub fn contains_key(&self, key: &String) -> (r: bool)
        ensures
            r == self@.contains_key(key@),
    {
        self.get(key).is_some()
    }

    /// Number of names.
    pub fn len(&self) -> (r: usize)
        ensures
            r == self@.len(),
    {
        proof {
            use_type_invariant(self);
            lemma_map_of_len(self.entries@);
        }
        self.entries.len()
    }

    /// Names `value` by `key`, replacing what `key` named before, which is
    /// handed back.
    pub fn insert(&mut self, key: String, value: V) -> (r: Option<V>)
        ensures
            final(self)@ == old(self)@.insert(key@, value),
            match r {
                Some(v) => old(self)@.contains_key(key@) && old(self)@[key@] == v,
                None => !old(self)@.contains_key(key@),
            },
    {
        proof {
            use_type_invariant(&*self);
            lemma_map_of_domain(self.entries@, key@);
        }
        let ghost old_entries = self.entries@;
        match self.position(&key) {
            Some(i) => {
                proof {
                    lemma_map_of_value(old_entries, i as int);
                    lemma_map_of_update(old_entries, i as int, key, value);
                }
                let mut entries = Vec::new();
                std::mem::swap(&mut entries, &mut self.entries);
                let mut entry = (key, value);
                std::mem::swap(&mut entry, &mut entries[i]);
                proof {
                    assert(entries@ == old_entries.update(i as int, (key, value)));
                    assert forall|a: int, b: int| 0 <= a < b < entries@.len() implies
                        #[trigger] entries@[a].0@ != #[trigger] entries@[b].0@ by {
                        assert(old_entries[a].0@ != old_entries[b].0@);
                    }
                }
                self.entries = entries;
                Some(entry.1)
            },
            None => {
                let mut entries = Vec::new();
                std::mem::swap(&mut entries, &mut self.entries);
                entries.push((key, value));
                proof {
                    assert(entries@.drop_last() =~= old_entries);
                }
                self.entries = entries;
                None
            },
        }
    }

    /// Names `value` by `key` unless `key` already names a value.
    pub fn insert_if_absent(&mut self, key: String, value: V)
        ensures
            final(self)@ == if old(self)@.contains_key(key@) { old(self)@ } else { old(self)@.insert(key@, value) },
    {
        if !self.contains_key(&key) {
            self.insert(key, value);
        }
    }

    /// Adds every name of `other`; names that both hold take the value of
    /// `other`.
    pub fn extend(&mut self, other: Registry<V>)
        ensures
            final(self)@ == old(self)@.union_prefer_right(other@),
    {
        let Registry { entries } = other;
        let ghost s = entries@;
        let ghost n = s.len();
        let mut rest = entries;
        let mut reversed: Vec<(String, V)> = Vec::new();
        while rest.len() > 0
            invariant
                n == s.len(),
                rest@.len() <= n,
                rest@ == s.subrange(0, rest@.len() as int),
                reversed@ == s.subrange(rest@.len() as int, n as int).reverse(),
            decreases rest@.len(),
        {
            let ghost k = rest@.len();
            let entry = rest.pop().unwrap();
            reversed.push(entry);
            proof {
                assert(rest@ =~= s.subrange(0, rest@.len() as int));
                assert(reversed@ =~= s.subrange(rest@.len() as int, n as int).reverse());
            }
        }
        let ghost start = self@;
        let ghost mut done: int = 0;
        assert(s.take(0) =~= Seq::<(String, V)>::empty());
        while reversed.len() > 0
            invariant
                n == s.len(),
                0 <= done <= n,
                reversed@.len() == n - done,
                reversed@ == s.subrange(done, n as int).reverse(),
                self@ == start.union_prefer_right(map_of(s.take(done))),
            decreases reversed@.len(),
        {
            let entry = reversed.pop().unwrap();
            proof {
                assert(entry == s[done]);
                assert(s.take(done + 1).drop_last() =~= s.take(done));
                assert(s.take(done + 1).last() == s[done]);
                assert(start.union_prefer_right(map_of(s.take(done))).insert(entry.0@, entry.1)
                    =~= start.union_prefer_right(map_of(s.take(done + 1))));
            }
            self.insert(entry.0, entry.1);
            proof {
                done = done + 1;
                assert(reversed@ =~= s.subrange(done, n as int).reverse());
            }
        }
        assert(s.take(n as int) =~= s);
    }
}

} // verus!
