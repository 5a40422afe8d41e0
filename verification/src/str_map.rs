use vstd::prelude::*;

verus! {

/// Reads an association list with string keys as a map: a key is present when some
/// entry carries it, and it maps to the value of such an entry.
pub open spec fn assoc_map<V>(s: Seq<(Seq<char>, V)>) -> Map<Seq<char>, V> {
    Map::new(
        |k: Seq<char>| exists|i: int| 0 <= i < s.len() && #[trigger] s[i].0 == k,
        |k: Seq<char>| s[choose|i: int| 0 <= i < s.len() && #[trigger] s[i].0 == k].1,
    )
}

/// No key occurs twice in the association list.
pub open spec fn distinct_keys<V>(s: Seq<(Seq<char>, V)>) -> bool {
    forall|i: int, j: int|
        0 <= i < s.len() && 0 <= j < s.len() && i != j ==> #[trigger] s[i].0 != #[trigger] s[j].0
}

/// The views of a sequence of strings.
pub open spec fn string_views(v: Seq<String>) -> Seq<Seq<char>> {
    v.map_values(|s: String| s@)
}

/// A sequence that lists the keys of `m`, each exactly once.
pub open spec fn lists_keys_once<V>(keys: Seq<Seq<char>>, m: Map<Seq<char>, V>) -> bool {
    &&& keys.no_duplicates()
    &&& forall|k: Seq<char>| #[trigger] keys.contains(k) <==> m.contains_key(k)
}

pub proof fn lemma_assoc_entry<V>(s: Seq<(Seq<char>, V)>, i: int)
    requires
        distinct_keys(s),
        0 <= i < s.len(),
    ensures
        assoc_map(s).contains_key(s[i].0),
        assoc_map(s)[s[i].0] == s[i].1,
{
    let k = s[i].0;
    assert(exists|j: int| 0 <= j < s.len() && #[trigger] s[j].0 == k);
    let j = choose|j: int| 0 <= j < s.len() && #[trigger] s[j].0 == k;
    assert(j == i);
}

pub proof fn lemma_assoc_push<V>(s: Seq<(Seq<char>, V)>, k: Seq<char>, v: V)
    requires
        distinct_keys(s),
        !assoc_map(s).contains_key(k),
    ensures
        distinct_keys(s.push((k, v))),
        assoc_map(s.push((k, v))) == assoc_map(s).insert(k, v),
{
    let t = s.push((k, v));
    assert forall|i: int| 0 <= i < s.len() implies #[trigger] s[i].0 != k by {
        if s[i].0 == k {
            assert(assoc_map(s).contains_key(k));
        }
    }
    assert(distinct_keys(t)) by {
        assert forall|i: int, j: int|
            0 <= i < t.len() && 0 <= j < t.len() && i != j implies #[trigger] t[i].0
            != #[trigger] t[j].0 by {
            if i < s.len() && j < s.len() {
                assert(t[i] == s[i] && t[j] == s[j]);
            } else if i < s.len() {
                assert(t[i] == s[i]);
            } else {
                assert(t[j] == s[j]);
            }
        }
    }
    let m = assoc_map(s).insert(k, v);
    assert forall|key: Seq<char>| #[trigger] assoc_map(t).contains_key(key) <==> m.contains_key(key) by {
        if assoc_map(t).contains_key(key) {
            let j = choose|j: int| 0 <= j < t.len() && #[trigger] t[j].0 == key;
            if j < s.len() {
                assert(s[j].0 == key);
            }
        }
        if m.contains_key(key) && key != k {
            let j = choose|j: int| 0 <= j < s.len() && #[trigger] s[j].0 == key;
            assert(t[j].0 == key);
        }
        if key == k {
            assert(t[s.len() as int].0 == key);
        }
    }
    assert forall|key: Seq<char>| #[trigger] assoc_map(t).contains_key(key) implies assoc_map(
        t,
    )[key] == m[key] by {
        let j = choose|j: int| 0 <= j < t.len() && #[trigger] t[j].0 == key;
        lemma_assoc_entry(t, j);
        if j < s.len() {
            assert(t[j] == s[j]);
            lemma_assoc_entry(s, j);
        }
    }
    assert(assoc_map(t) =~= m);
}

pub proof fn lemma_assoc_update<V>(s: Seq<(Seq<char>, V)>, i: int, v: V)
    requires
        distinct_keys(s),
        0 <= i < s.len(),
    ensures
        distinct_keys(s.update(i, (s[i].0, v))),
        assoc_map(s.update(i, (s[i].0, v))) == assoc_map(s).insert(s[i].0, v),
{
    let k = s[i].0;
    let t = s.update(i, (k, v));
    assert(distinct_keys(t)) by {
        assert forall|a: int, b: int|
            0 <= a < t.len() && 0 <= b < t.len() && a != b implies #[trigger] t[a].0
            != #[trigger] t[b].0 by {
            assert(t[a].0 == s[a].0 && t[b].0 == s[b].0);
        }
    }
    let m = assoc_map(s).insert(k, v);
    lemma_assoc_entry(s, i);
    assert forall|key: Seq<char>| #[trigger] assoc_map(t).contains_key(key) <==> m.contains_key(key) by {
        if assoc_map(t).contains_key(key) {
            let j = choose|j: int| 0 <= j < t.len() && #[trigger] t[j].0 == key;
            assert(s[j].0 == key);
        }
        if m.contains_key(key) && key != k {
            let j = choose|j: int| 0 <= j < s.len() && #[trigger] s[j].0 == key;
            assert(t[j].0 == key);
        }
        if key == k {
            assert(t[i].0 == key);
        }
    }
    assert forall|key: Seq<char>| #[trigger] assoc_map(t).contains_key(key) implies assoc_map(
        t,
    )[key] == m[key] by {
        let j = choose|j: int| 0 <= j < t.len() && #[trigger] t[j].0 == key;
        lemma_assoc_entry(t, j);
        if j != i {
            assert(t[j] == s[j]);
            lemma_assoc_entry(s, j);
        }
    }
    assert(assoc_map(t) =~= m);
}

pub proof fn lemma_assoc_remove<V>(s: Seq<(Seq<char>, V)>, i: int)
    requires
        distinct_keys(s),
        0 <= i < s.len(),
    ensures
        distinct_keys(s.remove(i)),
        assoc_map(s.remove(i)) == assoc_map(s).remove(s[i].0),
{
    let k = s[i].0;
    let t = s.remove(i);
    assert forall|a: int| 0 <= a < t.len() implies #[trigger] t[a] == s[if a < i {
        a
    } else {
        a + 1
    }] by {}
    assert(distinct_keys(t)) by {
        assert forall|a: int, b: int|
            0 <= a < t.len() && 0 <= b < t.len() && a != b implies #[trigger] t[a].0
            != #[trigger] t[b].0 by {
            let a2 = if a < i {
                a
            } else {
                a + 1
            };
            let b2 = if b < i {
                b
            } else {
                b + 1
            };
            assert(t[a] == s[a2] && t[b] == s[b2]);
        }
    }
    let m = assoc_map(s).remove(k);
    assert forall|key: Seq<char>| #[trigger] assoc_map(t).contains_key(key) <==> m.contains_key(key) by {
        if assoc_map(t).contains_key(key) {
            let j = choose|j: int| 0 <= j < t.len() && #[trigger] t[j].0 == key;
            let j2 = if j < i {
                j
            } else {
                j + 1
            };
            assert(t[j] == s[j2]);
            assert(s[j2].0 == key);
        }
        if m.contains_key(key) {
            let j = choose|j: int| 0 <= j < s.len() && #[trigger] s[j].0 == key;
            assert(j != i);
            let j2 = if j < i {
                j
            } else {
                j - 1
            };
            assert(t[j2] == s[j]);
            assert(t[j2].0 == key);
        }
    }
    assert forall|key: Seq<char>| #[trigger] assoc_map(t).contains_key(key) implies assoc_map(
        t,
    )[key] == m[key] by {
        let j = choose|j: int| 0 <= j < t.len() && #[trigger] t[j].0 == key;
        lemma_assoc_entry(t, j);
        let j2 = if j < i {
            j
        } else {
            j + 1
        };
        assert(t[j] == s[j2]);
        lemma_assoc_entry(s, j2);
    }
    assert(assoc_map(t) =~= m);
}

/// What pushing `x` does to membership, and pushing a new item keeps a sequence free of
/// duplicates.
pub proof fn lemma_push_contains(s: Seq<Seq<char>>, x: Seq<char>)
    ensures
        forall|a: Seq<char>| #[trigger] s.push(x).contains(a) == (s.contains(a) || a == x),
        !s.contains(x) && s.no_duplicates() ==> s.push(x).no_duplicates(),
{
    let t = s.push(x);
    assert forall|a: Seq<char>| #[trigger] t.contains(a) == (s.contains(a) || a == x) by {
        if s.contains(a) {
            let j = choose|j: int| 0 <= j < s.len() && s[j] == a;
            assert(t[j] == a);
        }
        if a == x {
            assert(t[s.len() as int] == a);
        }
        if t.contains(a) {
            let j = choose|j: int| 0 <= j < t.len() && t[j] == a;
            if j < s.len() {
                assert(s[j] == a);
            }
        }
    }
    if !s.contains(x) && s.no_duplicates() {
        assert forall|i: int, j: int| 0 <= i < t.len() && 0 <= j < t.len() && i != j implies t[i]
            != t[j] by {
            if i < s.len() && j < s.len() {
            } else if i < s.len() {
                assert(s[i] == t[i]);
            } else {
                assert(s[j] == t[j]);
            }
        }
    }
}

/// A map from strings to values, kept as a list of entries with distinct keys.
pub struct StrMap<V> {
    entries: Vec<(String, V)>,
}

impl<V> StrMap<V> {
    /// The entries, each key taken by its view.
    pub closed spec fn entry_views(&self) -> Seq<(Seq<char>, V)> {
        self.entries@.map_values(|e: (String, V)| (e.0@, e.1))
    }

    /// The map's well-formedness: no key is stored twice.
    pub closed spec fn wf(&self) -> bool {
        distinct_keys(self.entry_views())
    }

    /// The map that the entries stand for.
    pub closed spec fn as_map(&self) -> Map<Seq<char>, V> {
        assoc_map(self.entry_views())
    }

    /// An empty map.
    pub fn new() -> (m: Self)
        ensures
            m.wf(),
            m@ == Map::<Seq<char>, V>::empty(),
    {
        let m = StrMap { entries: Vec::new() };
        assert(m.entry_views() =~= Seq::<(Seq<char>, V)>::empty());
        assert(m@ =~= Map::<Seq<char>, V>::empty());
        m
    }

    /// The position of the entry for `key`, if there is one.
    fn position(&self, key: &String) -> (r: Option<usize>)
        requires
            self.wf(),
        ensures
            match r {
                Some(i) => i < self.entries@.len() && self.entry_views()[i as int].0 == key@,
                None => !self@.contains_key(key@),
            },
    {
        let mut i: usize = 0;
        while i < self.entries.len()
            invariant
                i <= self.entries@.len(),
                forall|j: int| 0 <= j < i ==> #[trigger] self.entry_views()[j].0 != key@,
            decreases self.entries@.len() - i,
        {
            if self.entries[i].0 == *key {
                return Some(i);
            }
            i = i + 1;
        }
        proof {
            if self@.contains_key(key@) {
                let j = choose|j: int|
                    0 <= j < self.entry_views().len() && #[trigger] self.entry_views()[j].0
                        == key@;
                assert(self.entry_views()[j].0 != key@);
            }
        }
        None
    }

    /// Whether `key` has an entry.
    pub fn contains_key(&self, key: &String) -> (b: bool)
        requires
            self.wf(),
        ensures
            b == self@.contains_key(key@),
    {
        match self.position(key) {
            Some(i) => {
                proof {
                    lemma_assoc_entry(self.entry_views(), i as int);
                }
                true
            },
            None => false,
        }
    }

    /// The value stored for `key`, if any.
    pub fn get(&self, key: &String) -> (r: Option<&V>)
        requires
            self.wf(),
        ensures
            r is Some == self@.contains_key(key@),
            r matches Some(v) ==> *v == self@[key@],
    {
        match self.position(key) {
            Some(i) => {
                proof {
                    lemma_assoc_entry(self.entry_views(), i as int);
                }
                Some(&self.entries[i].1)
            },
            None => None,
        }
    }

    /// Stores `value` for `key`, replacing any earlier value.
    pub fn insert(&mut self, key: String, value: V)
        requires
            old(self).wf(),
        ensures
            final(self).wf(),
            final(self)@ == old(self)@.insert(key@, value),
    {
        let ghost k = key@;
        let ghost s = self.entry_views();
        match self.position(&key) {
            Some(i) => {
                self.entries.set(i, (key, value));
                proof {
                    assert(self.entry_views() =~= s.update(i as int, (s[i as int].0, value)));
                    lemma_assoc_update(s, i as int, value);
                }
            },
            None => {
                self.entries.push((key, value));
                proof {
                    assert(self.entry_views() =~= s.push((k, value)));
                    lemma_assoc_push(s, k, value);
                }
            },
        }
    }

    /// Removes the entry for `key` and hands back its value, if there was one.
    pub fn remove(&mut self, key: &String) -> (r: Option<V>)
        requires
            old(self).wf(),
        ensures
            final(self).wf(),
            final(self)@ == old(self)@.remove(key@),
            r is Some == old(self)@.contains_key(key@),
            r matches Some(v) ==> v == old(self)@[key@],
    {
        let ghost s = self.entry_views();
        match self.position(key) {
            Some(i) => {
                proof {
                    lemma_assoc_entry(s, i as int);
                }
                let (_, v) = self.entries.remove(i);
                proof {
                    assert(self.entry_views() =~= s.remove(i as int));
                    lemma_assoc_remove(s, i as int);
                }
                Some(v)
            },
            None => {
                proof {
                    assert(old(self)@.remove(key@) =~= old(self)@);
                }
                None
            },
        }
    }

    /// The keys other than `skip`, each once.
    pub fn keys_except(&self, skip: Option<&String>) -> (keys: Vec<String>)
        requires
            self.wf(),
        ensures
            string_views(keys@).no_duplicates(),
            forall|k: Seq<char>|
                #[trigger] string_views(keys@).contains(k) <==> (self@.contains_key(k) && match skip {
                    Some(s) => k != s@,
                    None => true,
                }),
    {
        let mut keys: Vec<String> = Vec::new();
        let mut i: usize = 0;
        let ghost s = self.entry_views();
        let ghost mut from: Seq<int> = Seq::empty();
        while i < self.entries.len()
            invariant
                i <= self.entries@.len(),
                s == self.entry_views(),
                self.wf(),
                from.len() == keys@.len(),
                forall|a: int, b: int|
                    0 <= a < b < from.len() ==> #[trigger] from[a] < #[trigger] from[b],
                forall|j: int|
                    0 <= j < from.len() ==> 0 <= #[trigger] from[j] < i && s[from[j]].0
                        == string_views(keys@)[j],
                forall|e: int|
                    0 <= e < i ==> (match skip {
                        Some(x) => #[trigger] s[e].0 != x@,
                        None => true,
                    }) ==> string_views(keys@).contains(s[e].0),
                forall|j: int|
                    0 <= j < keys@.len() ==> match skip {
                        Some(x) => #[trigger] string_views(keys@)[j] != x@,
                        None => true,
                    },
            decreases self.entries@.len() - i,
        {
            let keep = match skip {
                Some(x) => !(self.entries[i].0 == *x),
                None => true,
            };
            if keep {
                let ghost before = string_views(keys@);
                keys.push(self.entries[i].0.clone());
                proof {
                    from = from.push(i as int);
                    assert(string_views(keys@) =~= before.push(s[i as int].0));
                    assert forall|e: int| 0 <= e < i + 1 && (match skip {
                        Some(x) => #[trigger] s[e].0 != x@,
                        None => true,
                    }) implies string_views(keys@).contains(s[e].0) by {
                        if e < i {
                            let j = choose|j: int| 0 <= j < before.len() && before[j] == s[e].0;
                            assert(string_views(keys@)[j] == s[e].0);
                        } else {
                            assert(string_views(keys@)[before.len() as int] == s[e].0);
                        }
                    }
                }
            }
            i = i + 1;
        }
        proof {
            let kv = string_views(keys@);
            assert forall|a: int, b: int| 0 <= a < kv.len() && 0 <= b < kv.len() && a != b implies kv[a]
                != kv[b] by {
                assert(from[a] != from[b]) by {
                    if a < b {
                        assert(from[a] < from[b]);
                    } else {
                        assert(from[b] < from[a]);
                    }
                }
                assert(s[from[a]].0 != s[from[b]].0);
            }
            assert forall|k: Seq<char>| #[trigger] kv.contains(k) <==> (self@.contains_key(k)
                && match skip {
                Some(x) => k != x@,
                None => true,
            }) by {
                if kv.contains(k) {
                    let j = choose|j: int| 0 <= j < kv.len() && kv[j] == k;
                    lemma_assoc_entry(s, from[j]);
                }
                if self@.contains_key(k) && match skip {
                    Some(x) => k != x@,
                    None => true,
                } {
                    let e = choose|e: int| 0 <= e < s.len() && #[trigger] s[e].0 == k;
                    assert(kv.contains(s[e].0));
                }
            }
        }
        keys
    }

    /// All keys, each once.
    pub fn keys(&self) -> (keys: Vec<String>)
        requires
            self.wf(),
        ensures
            lists_keys_once(string_views(keys@), self@),
    {
        self.keys_except(None)
    }
}

impl<V> View for StrMap<V> {
    type V = Map<Seq<char>, V>;

    open spec fn view(&self) -> Map<Seq<char>, V> {
        self.as_map()
    }
}

} // verus!
