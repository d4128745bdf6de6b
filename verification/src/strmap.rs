//! A small string-keyed association table with unique keys.
//!
//! Manifest objects are keyed by member path, dependency name or subdirectory
//! name.  The table keeps its entries in insertion order, which makes every
//! walk over a manifest deterministic, and its abstract content is the map
//! from key characters to values.

use vstd::prelude::*;

verus! {

/// A table from string keys to values of type `V`, with pairwise distinct
/// keys, kept in insertion order.
#[derive(Debug)]
pub struct StrMap<V> {
    entries: Vec<(String, V)>,
}

/// The map described by an entry list: later entries win.
pub open spec fn map_of<V>(s: Seq<(String, V)>) -> Map<Seq<char>, V>
    decreases s.len(),
{
    if s.len() == 0 {
        Map::empty()
    } else {
        map_of(s.drop_last()).insert(s.last().0@, s.last().1)
    }
}

/// Key views of an entry list, as a sequence.
pub open spec fn keys_of<V>(s: Seq<(String, V)>) -> Seq<Seq<char>> {
    s.map_values(|e: (String, V)| e.0@)
}

/// No two entries share a key.
pub open spec fn distinct_keys<V>(s: Seq<(String, V)>) -> bool {
    forall|i: int, j: int| 0 <= i < j < s.len() ==> s[i].0@ != s[j].0@
}

proof fn lemma_map_of_domain<V>(s: Seq<(String, V)>, k: Seq<char>)
    ensures
        map_of(s).contains_key(k) <==> exists|i: int| 0 <= i < s.len() && s[i].0@ == k,
    decreases s.len(),
{
    if s.len() > 0 {
        lemma_map_of_domain(s.drop_last(), k);
        if s.last().0@ == k {
            assert(s[s.len() - 1].0@ == k);
        } else if map_of(s).contains_key(k) {
            let i = choose|i: int| 0 <= i < s.drop_last().len() && s.drop_last()[i].0@ == k;
            assert(s[i].0@ == k);
        } else if exists|i: int| 0 <= i < s.len() && s[i].0@ == k {
            let i = choose|i: int| 0 <= i < s.len() && s[i].0@ == k;
            assert(s.drop_last()[i].0@ == k);
        }
    }
}

proof fn lemma_map_of_entry<V>(s: Seq<(String, V)>, i: int)
    requires
        distinct_keys(s),
        0 <= i < s.len(),
    ensures
        map_of(s).contains_key(s[i].0@),
        map_of(s)[s[i].0@] == s[i].1,
    decreases s.len(),
{
    lemma_map_of_domain(s, s[i].0@);
    if i < s.len() - 1 {
        assert(distinct_keys(s.drop_last())) by {
            assert(forall|a: int, b: int|
                0 <= a < b < s.drop_last().len() ==> s.drop_last()[a].0@ != s.drop_last()[b].0@);
        }
        lemma_map_of_entry(s.drop_last(), i);
    }
}

impl<V> StrMap<V> {
    /// The entries, in insertion order.
    pub closed spec fn kvs(&self) -> Seq<(String, V)> {
        self.entries@
    }

    /// Key uniqueness: the invariant every constructor establishes and every
    /// method preserves.
    pub open spec fn wf(&self) -> bool {
        distinct_keys(self.kvs())
    }

    pub open spec fn spec_len(&self) -> usize {
        self.kvs().len() as usize
    }

    /// An empty table.
    pub fn new() -> (r: StrMap<V>)
        ensures
            r.wf(),
            r.kvs() == Seq::<(String, V)>::empty(),
            r@ == Map::<Seq<char>, V>::empty(),
    {
        StrMap { entries: Vec::new() }
    }

    #[verifier::when_used_as_spec(spec_len)]
    pub fn len(&self) -> (n: usize)
        ensures
            n == self.kvs().len(),
    {
        self.entries.len()
    }

    /// The entry at a position, in insertion order.
    pub fn entry_at(&self, i: usize) -> (e: &(String, V))
        requires
            i < self.kvs().len(),
        ensures
            *e == self.kvs()[i as int],
    {
        &self.entries[i]
    }

    /// Position of a key among the entries, if present.
    fn index_of(&self, k: &str) -> (r: Option<usize>)
        ensures
            match r {
                Some(i) => i < self.kvs().len() && self.kvs()[i as int].0@ == k@,
                None => forall|i: int| 0 <= i < self.kvs().len() ==> self.kvs()[i].0@ != k@,
            },
    {
        let n = self.entries.len();
        let mut i: usize = 0;
        while i < n
            invariant
                n == self.kvs().len(),
                i <= n,
                forall|j: int| 0 <= j < i ==> self.kvs()[j].0@ != k@,
            decreases n - i,
        {
            if crate::strutil::str_eq(self.entries[i].0.as_str(), k) {
                return Some(i);
            }
            i = i + 1;
        }
        None
    }

    /// Whether a key is present.
    pub fn contains_key(&self, k: &str) -> (r: bool)
        ensures
            r == self@.contains_key(k@),
    {
        proof {
            lemma_map_of_domain(self.kvs(), k@);
        }
        self.index_of(k).is_some()
    }

    /// The value stored under a key.
    pub fn get(&self, k: &str) -> (r: Option<&V>)
        requires
            self.wf(),
        ensures
            match r {
                Some(v) => self@.contains_key(k@) && *v == self@[k@],
                None => !self@.contains_key(k@),
            },
    {
        proof {
            lemma_map_of_domain(self.kvs(), k@);
        }
        match self.index_of(k) {
            Some(i) => {
                proof {
                    lemma_map_of_entry(self.kvs(), i as int);
                }
                Some(&self.entries[i].1)
            },
            None => None,
        }
    }

    /// Binds a key to a value, replacing any earlier binding.
    pub fn insert(&mut self, k: String, v: V)
        requires
            old(self).wf(),
        ensures
            final(self).wf(),
            final(self)@ == old(self)@.insert(k@, v),
            final(self)@.contains_key(k@),
            keys_of(final(self).kvs()).to_set() == keys_of(old(self).kvs()).to_set().insert(k@),
            old(self)@.contains_key(k@) ==> final(self).kvs().len() == old(self).kvs().len(),
            !old(self)@.contains_key(k@) ==> final(self).kvs() == old(self).kvs().push((k, v)),
    {
        proof {
            lemma_map_of_domain(self.kvs(), k@);
        }
        match self.index_of(&k) {
            Some(i) => {
                let ghost pre = self.entries@;
                let slot = &mut self.entries[i];
                slot.1 = v;
                proof {
                    let post = self.entries@;
                    assert(post == pre.update(i as int, (pre[i as int].0, v)));
                    lemma_update_value_map(pre, i as int, v);
                    assert(keys_of(post) =~= keys_of(pre));
                    assert(keys_of(pre).to_set().contains(k@)) by {
                        assert(keys_of(pre)[i as int] == k@);
                    }
                    assert(keys_of(pre).to_set().insert(k@) =~= keys_of(pre).to_set());
                    assert(map_of(post) =~= map_of(pre).insert(k@, v)) by {
                        assert(pre[i as int].0@ == k@);
                    }
                }
            },
            None => {
                let ghost pre = self.entries@;
                self.entries.push((k, v));
                proof {
                    assert(self.entries@.drop_last() =~= pre);
                    assert(keys_of(self.entries@).to_set() =~= keys_of(pre).to_set().insert(k@))
                        by {
                        let post = keys_of(self.entries@);
                        assert(forall|j: int| 0 <= j < pre.len() ==> post[j] == keys_of(pre)[j]);
                        assert(post[pre.len() as int] == k@);
                        assert forall|x: Seq<char>| post.to_set().contains(x)
                            <==> keys_of(pre).to_set().insert(k@).contains(x) by {
                            if post.to_set().contains(x) {
                                let j = choose|j: int| 0 <= j < post.len() && post[j] == x;
                                if j < pre.len() {
                                    assert(keys_of(pre)[j] == x);
                                }
                            }
                            if keys_of(pre).to_set().contains(x) {
                                let j = choose|j: int|
                                    0 <= j < keys_of(pre).len() && keys_of(pre)[j] == x;
                                assert(post[j] == x);
                            }
                            if x == k@ {
                                assert(post[pre.len() as int] == x);
                            }
                        }
                    }
                }
            },
        }
    }
}

proof fn lemma_update_value_map<V>(s: Seq<(String, V)>, i: int, v: V)
    requires
        distinct_keys(s),
        0 <= i < s.len(),
    ensures
        distinct_keys(s.update(i, (s[i].0, v))),
        map_of(s.update(i, (s[i].0, v))) == map_of(s).insert(s[i].0@, v),
    decreases s.len(),
{
    let t = s.update(i, (s[i].0, v));
    assert(forall|a: int| 0 <= a < s.len() ==> t[a].0@ == s[a].0@);
    assert(distinct_keys(t));
    if i == s.len() - 1 {
        assert(t.drop_last() =~= s.drop_last());
        assert(map_of(t) == map_of(s.drop_last()).insert(s[i].0@, v));
        assert(map_of(t) =~= map_of(s).insert(s[i].0@, v)) by {
            lemma_map_of_domain(s.drop_last(), s[i].0@);
        }
    } else {
        assert(distinct_keys(s.drop_last()));
        assert(t.drop_last() =~= s.drop_last().update(i, (s[i].0, v)));
        lemma_update_value_map(s.drop_last(), i, v);
        assert(map_of(t) == map_of(s.drop_last()).insert(s[i].0@, v).insert(s.last().0@, s.last().1));
        assert(s.last().0@ != s[i].0@);
        assert(map_of(t) =~= map_of(s).insert(s[i].0@, v)) by {
            assert(map_of(s) == map_of(s.drop_last()).insert(s.last().0@, s.last().1));
        }
    }
}

impl<V> View for StrMap<V> {
    type V = Map<Seq<char>, V>;

    open spec fn view(&self) -> Map<Seq<char>, V> {
        map_of(self.kvs())
    }
}

/// Every key listed among the entries is in the map view, and conversely.
pub proof fn lemma_strmap_keys<V>(m: StrMap<V>, k: Seq<char>)
    ensures
        m@.contains_key(k) <==> exists|i: int| 0 <= i < m.kvs().len() && m.kvs()[i].0@ == k,
{
    lemma_map_of_domain(m.kvs(), k);
}

/// In a well-formed table the entry list and the map view agree pointwise.
pub proof fn lemma_strmap_entry<V>(m: StrMap<V>, i: int)
    requires
        m.wf(),
        0 <= i < m.kvs().len(),
    ensures
        m@.contains_key(m.kvs()[i].0@),
        m@[m.kvs()[i].0@] == m.kvs()[i].1,
{
    lemma_map_of_entry(m.kvs(), i);
}

} // verus!
