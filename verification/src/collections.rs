use vstd::prelude::*;

verus! {

/// Keys which can be compared for equality in executable code, with the comparison agreeing with
/// spec equality
pub trait MapKey: Sized + Copy {
    fn key_eq(&self, other: &Self) -> (r: bool)
        ensures
            r == (*self == *other),
    ;
}

/// A set, backed by a vector which never holds the same item twice. Items are kept in the order
/// they were first inserted.
#[derive(Debug)]
pub struct VecSet<K> {
    items: Vec<K>,
}

impl<K: MapKey> Clone for VecSet<K> {
    fn clone(&self) -> (r: Self)
        ensures
            r@ == self@,
            r.wf() == self.wf(),
    {
        let mut items: Vec<K> = Vec::new();
        let mut i: usize = 0;
        while i < self.items.len()
            invariant
                i <= self.items@.len(),
                items@ == self.items@.take(i as int),
            decreases self.items.len() - i,
        {
            items.push(self.items[i]);
            i += 1;
            assert(items@ =~= self.items@.take(i as int));
        }
        assert(items@ =~= self.items@);
        VecSet { items }
    }
}

/// Sequence with no repeated items
pub open spec fn distinct<K>(s: Seq<K>) -> bool {
    forall|i: int, j: int| 0 <= i < j < s.len() ==> s[i] != s[j]
}

/// Append `x` unless it is already there
pub open spec fn seq_insert<K>(s: Seq<K>, x: K) -> Seq<K> {
    if s.contains(x) {
        s
    } else {
        s.push(x)
    }
}

/// Append each item of `xs` in turn, unless it is already there
pub open spec fn seq_insert_all<K>(s: Seq<K>, xs: Seq<K>) -> Seq<K>
    decreases xs.len(),
{
    if xs.len() == 0 {
        s
    } else {
        seq_insert_all(seq_insert(s, xs[0]), xs.drop_first())
    }
}

/// Inserting items keeps a sequence free of repetitions, and adds exactly the inserted items
pub proof fn lemma_seq_insert_all<K>(s: Seq<K>, xs: Seq<K>)
    requires
        distinct(s),
    ensures
        distinct(seq_insert_all(s, xs)),
        forall|x: K| #[trigger] seq_insert_all(s, xs).contains(x) <==> s.contains(x) || xs.contains(x),
    decreases xs.len(),
{
    if xs.len() > 0 {
        let s1 = seq_insert(s, xs[0]);
        assert(distinct(s1));
        assert forall|x: K| #[trigger] s1.contains(x) <==> s.contains(x) || x == xs[0] by {
            if !s.contains(xs[0]) && s1.contains(x) && x != xs[0] {
                let i = choose|i: int| 0 <= i < s1.len() && s1[i] == x;
                assert(s[i] == x);
            }
            if !s.contains(xs[0]) && s.contains(x) {
                let i = choose|i: int| 0 <= i < s.len() && s[i] == x;
                assert(s1[i] == x);
            }
            if !s.contains(xs[0]) && x == xs[0] {
                assert(s1[s.len() as int] == x);
            }
        }
        lemma_seq_insert_all(s1, xs.drop_first());
        assert forall|x: K| #[trigger] xs.contains(x) <==> x == xs[0] || xs.drop_first().contains(x) by {
            if xs.contains(x) && x != xs[0] {
                let i = choose|i: int| 0 <= i < xs.len() && xs[i] == x;
                assert(xs.drop_first()[i - 1] == x);
            }
            if xs.drop_first().contains(x) {
                let i = choose|i: int| 0 <= i < xs.drop_first().len() && xs.drop_first()[i] == x;
                assert(xs[i + 1] == x);
            }
            if x == xs[0] {
                assert(xs[0] == x);
            }
        }
    }
}

impl<K: MapKey> View for VecSet<K> {
    type V = Seq<K>;

    closed spec fn view(&self) -> Seq<K> {
        self.items@
    }
}

impl<K: MapKey> VecSet<K> {
    /// Items of the set, as a mathematical set
    pub open spec fn set(&self) -> Set<K> {
        self@.to_set()
    }

    pub open spec fn wf(&self) -> bool {
        distinct(self@)
    }

    /// Create an empty set
    pub fn new() -> (s: Self)
        ensures
            s.wf(),
            s@ == Seq::<K>::empty(),
    {
        VecSet { items: Vec::new() }
    }

    /// Number of items in the set
    pub fn len(&self) -> (n: usize)
        ensures
            n == self@.len(),
    {
        self.items.len()
    }

    /// Item at position `i`, in insertion order
    pub fn get(&self, i: usize) -> (k: K)
        requires
            i < self@.len(),
        ensures
            k == self@[i as int],
    {
        self.items[i]
    }

    /// The items of the set, in order
    pub fn to_vec(&self) -> (r: Vec<K>)
        ensures
            r@ == self@,
    {
        let mut out: Vec<K> = Vec::new();
        let mut i: usize = 0;
        while i < self.items.len()
            invariant
                i <= self.items@.len(),
                out@ == self.items@.take(i as int),
            decreases self.items@.len() - i,
        {
            out.push(self.items[i]);
            i += 1;
            assert(out@ =~= self.items@.take(i as int));
        }
        assert(self.items@.take(self.items@.len() as int) =~= self.items@);
        out
    }

    /// Whether the set holds `k`
    pub fn contains(&self, k: &K) -> (r: bool)
        ensures
            r == self@.contains(*k),
    {
        let mut i: usize = 0;
        while i < self.items.len()
            invariant
                i <= self.items@.len(),
                forall|j: int| 0 <= j < i ==> self.items@[j] != *k,
            decreases self.items.len() - i,
        {
            if self.items[i].key_eq(k) {
                return true;
            }
            i += 1;
        }
        false
    }

    /// Add each item of `ks` in turn
    pub fn insert_all(&mut self, ks: &Vec<K>)
        requires
            old(self).wf(),
        ensures
            final(self).wf(),
            final(self)@ == seq_insert_all(old(self)@, ks@),
    {
        let mut i: usize = 0;
        assert(ks@.skip(0) =~= ks@);
        while i < ks.len()
            invariant
                i <= ks@.len(),
                self.wf(),
                seq_insert_all(self@, ks@.skip(i as int)) == seq_insert_all(old(self)@, ks@),
            decreases ks.len() - i,
        {
            let ghost before = self@;
            self.insert(ks[i]);
            assert(ks@.skip(i as int).drop_first() =~= ks@.skip(i + 1));
            i += 1;
        }
        assert(ks@.skip(i as int) =~= Seq::<K>::empty());
    }

    /// Add `k` to the set. Returns true if it was not there before.
    pub fn insert(&mut self, k: K) -> (r: bool)
        requires
            old(self).wf(),
        ensures
            final(self).wf(),
            r == !old(self)@.contains(k),
            final(self)@ == (if r {
                old(self)@.push(k)
            } else {
                old(self)@
            }),
            final(self).set() == old(self).set().insert(k),
    {
        let ghost s0 = self.items@;
        if self.contains(&k) {
            assert(s0.to_set() =~= s0.to_set().insert(k));
            false
        } else {
            self.items.push(k);
            let ghost s1 = self.items@;
            assert forall|x: K| #[trigger] s1.to_set().contains(x) == s0.to_set().insert(k).contains(x) by {
                if s1.contains(x) && x != k {
                    let j = choose|j: int| 0 <= j < s1.len() && s1[j] == x;
                    assert(s0[j] == x);
                }
                if s0.contains(x) {
                    let j = choose|j: int| 0 <= j < s0.len() && s0[j] == x;
                    assert(s1[j] == x);
                }
                if x == k {
                    assert(s1[s0.len() as int] == x);
                }
            }
            assert(s1.to_set() =~= s0.to_set().insert(k));
            true
        }
    }

    /// Remove `k` from the set. Returns true if it was there.
    pub fn remove(&mut self, k: &K) -> (r: bool)
        requires
            old(self).wf(),
        ensures
            final(self).wf(),
            r == old(self)@.contains(*k),
            final(self).set() == old(self).set().remove(*k),
            final(self)@.len() == old(self)@.len() - (if r { 1int } else { 0int }),
    {
        let ghost s0 = self.items@;
        let mut i: usize = 0;
        while i < self.items.len()
            invariant
                i <= self.items@.len(),
                self.items@ == s0,
                forall|j: int| 0 <= j < i ==> self.items@[j] != *k,
            ensures
                i < self.items@.len() ==> self.items@[i as int] == *k,
                i >= self.items@.len() ==> !self.items@.contains(*k),
                self.items@ == s0,
            decreases self.items.len() - i,
        {
            if self.items[i].key_eq(k) {
                break;
            }
            i += 1;
        }
        if i < self.items.len() {
            self.items.remove(i);
            let ghost s1 = self.items@;
            assert(s1 =~= s0.remove(i as int));
            assert forall|x: K| #[trigger] s1.to_set().contains(x) == s0.to_set().remove(*k).contains(x) by {
                if s1.contains(x) {
                    let j = choose|j: int| 0 <= j < s1.len() && s1[j] == x;
                    if j < i { assert(s0[j] == x); } else { assert(s0[j + 1] == x); }
                }
                if s0.contains(x) && x != *k {
                    let j = choose|j: int| 0 <= j < s0.len() && s0[j] == x;
                    if j < i { assert(s1[j] == x); } else { assert(j != i); assert(s1[j - 1] == x); }
                }
            }
            assert(s1.to_set() =~= s0.to_set().remove(*k));
            true
        } else {
            assert(s0.to_set() =~= s0.to_set().remove(*k));
            false
        }
    }
}

/// Keys of a sequence of entries
pub open spec fn entry_keys<K, V>(entries: Seq<(K, V)>) -> Seq<K> {
    entries.map_values(|e: (K, V)| e.0)
}

/// The map that a sequence of entries with distinct keys stands for
pub open spec fn entries_map<K, V>(entries: Seq<(K, V)>) -> Map<K, V> {
    Map::new(
        |k: K| entry_keys(entries).contains(k),
        |k: K| entries[entry_keys(entries).index_of(k)].1,
    )
}

proof fn lemma_entries_index<K, V>(entries: Seq<(K, V)>, i: int)
    requires
        distinct(entry_keys(entries)),
        0 <= i < entries.len(),
    ensures
        entry_keys(entries).contains(entries[i].0),
        entry_keys(entries).index_of(entries[i].0) == i,
        entries_map(entries).dom().contains(entries[i].0),
        entries_map(entries)[entries[i].0] == entries[i].1,
{
    let ks = entry_keys(entries);
    assert(ks[i] == entries[i].0);
    let j = ks.index_of(entries[i].0);
    assert(ks[j] == ks[i]);
}

proof fn lemma_entries_update<K, V>(entries: Seq<(K, V)>, i: int, v: V)
    requires
        distinct(entry_keys(entries)),
        0 <= i < entries.len(),
    ensures
        entry_keys(entries.update(i, (entries[i].0, v))) == entry_keys(entries),
        entries_map(entries.update(i, (entries[i].0, v))) == entries_map(entries).insert(
            entries[i].0,
            v,
        ),
{
    let e2 = entries.update(i, (entries[i].0, v));
    assert(entry_keys(e2) =~= entry_keys(entries));
    lemma_entries_index(e2, i);
    assert forall|k: K| #[trigger] entries_map(e2).dom().contains(k) && k != entries[i].0 implies
        entries_map(e2)[k] == entries_map(entries)[k] by {
        let j = entry_keys(entries).index_of(k);
        assert(entry_keys(entries)[j] == k);
        lemma_entries_index(entries, j);
        lemma_entries_index(e2, j);
    }
    assert(entries_map(e2) =~= entries_map(entries).insert(entries[i].0, v));
}

proof fn lemma_entries_push<K, V>(entries: Seq<(K, V)>, k: K, v: V)
    requires
        distinct(entry_keys(entries)),
        !entry_keys(entries).contains(k),
    ensures
        entry_keys(entries.push((k, v))) == entry_keys(entries).push(k),
        distinct(entry_keys(entries.push((k, v)))),
        entries_map(entries.push((k, v))) == entries_map(entries).insert(k, v),
{
    let e2 = entries.push((k, v));
    assert(entry_keys(e2) =~= entry_keys(entries).push(k));
    lemma_entries_index(e2, entries.len() as int);
    assert forall|k2: K| #[trigger] entries_map(e2).dom().contains(k2) && k2 != k implies
        entries_map(e2)[k2] == entries_map(entries)[k2] by {
        let j = entry_keys(e2).index_of(k2);
        assert(entry_keys(e2)[j] == k2);
        assert(j < entries.len());
        assert(entry_keys(entries)[j] == k2);
        lemma_entries_index(entries, j);
        lemma_entries_index(e2, j);
    }
    assert forall|k2: K| #[trigger] entry_keys(e2).contains(k2) <==> (entry_keys(entries).contains(k2) || k2 == k) by {
        if entry_keys(e2).contains(k2) && k2 != k {
            let j = entry_keys(e2).index_of(k2);
            assert(entry_keys(entries)[j] == k2);
        }
        if entry_keys(entries).contains(k2) {
            let j = entry_keys(entries).index_of(k2);
            assert(entry_keys(e2)[j] == k2);
        }
    }
    assert(entries_map(e2).dom() =~= entries_map(entries).insert(k, v).dom());
    assert(entries_map(e2) =~= entries_map(entries).insert(k, v));
}

proof fn lemma_entries_remove<K, V>(entries: Seq<(K, V)>, i: int)
    requires
        distinct(entry_keys(entries)),
        0 <= i < entries.len(),
    ensures
        entry_keys(entries.remove(i)) == entry_keys(entries).remove(i),
        distinct(entry_keys(entries.remove(i))),
        entries_map(entries.remove(i)) == entries_map(entries).remove(entries[i].0),
{
    let e2 = entries.remove(i);
    let ks = entry_keys(entries);
    let ks2 = entry_keys(e2);
    assert(ks2 =~= ks.remove(i));
    let k = entries[i].0;
    assert forall|k2: K| #[trigger] ks2.contains(k2) <==> (ks.contains(k2) && k2 != k) by {
        if ks2.contains(k2) {
            let j = ks2.index_of(k2);
            if j < i {
                assert(ks[j] == k2);
                assert(ks[i] == k);
            } else {
                assert(ks[j + 1] == k2);
                assert(ks[i] == k);
            }
        }
        if ks.contains(k2) && k2 != k {
            let j = ks.index_of(k2);
            assert(j != i);
            if j < i {
                assert(ks2[j] == k2);
            } else {
                assert(ks2[j - 1] == k2);
            }
        }
    }
    assert forall|k2: K| #[trigger] entries_map(e2).dom().contains(k2) implies entries_map(e2)[k2]
        == entries_map(entries)[k2] by {
        let j = ks2.index_of(k2);
        assert(ks2[j] == k2);
        lemma_entries_index(e2, j);
        if j < i {
            assert(e2[j] == entries[j]);
            lemma_entries_index(entries, j);
        } else {
            assert(e2[j] == entries[j + 1]);
            lemma_entries_index(entries, j + 1);
        }
    }
    assert(entries_map(e2).dom() =~= entries_map(entries).remove(k).dom());
    assert(entries_map(e2) =~= entries_map(entries).remove(k));
}

/// A map, backed by a vector of entries which never holds the same key twice. Entries are kept in
/// the order their keys were first inserted.
#[derive(Debug)]
pub struct VecMap<K, V> {
    entries: Vec<(K, V)>,
}

impl<K: MapKey, V> View for VecMap<K, V> {
    type V = Map<K, V>;

    closed spec fn view(&self) -> Map<K, V> {
        entries_map(self.entries@)
    }
}

impl<K: MapKey, V> VecMap<K, V> {
    /// Keys of the map, in insertion order
    pub closed spec fn keys(&self) -> Seq<K> {
        entry_keys(self.entries@)
    }

    pub closed spec fn wf(&self) -> bool {
        distinct(entry_keys(self.entries@))
    }

    /// The keys are those of the map, each once
    pub proof fn lemma_keys(&self)
        requires
            self.wf(),
        ensures
            distinct(self.keys()),
            self.keys().to_set() == self@.dom(),
            self.keys().len() == self@.len(),
            self@.dom().finite(),
    {
        let ks = self.keys();
        assert(ks.to_set() =~= self@.dom());
        assert(ks.no_duplicates());
        ks.unique_seq_to_set();
    }

    /// Create an empty map
    pub fn new() -> (m: Self)
        ensures
            m.wf(),
            m@ == Map::<K, V>::empty(),
            m.keys() == Seq::<K>::empty(),
    {
        let m = VecMap { entries: Vec::new() };
        assert(m@ =~= Map::<K, V>::empty());
        assert(m.keys() =~= Seq::<K>::empty());
        m
    }

    /// Number of entries
    pub fn len(&self) -> (n: usize)
        requires
            self.wf(),
        ensures
            n == self@.len(),
            n == self.keys().len(),
    {
        proof {
            self.lemma_keys();
        }
        self.entries.len()
    }

    /// Key at position `i` of the insertion order
    pub fn key_at(&self, i: usize) -> (k: K)
        requires
            i < self.keys().len(),
        ensures
            k == self.keys()[i as int],
    {
        self.entries[i].0
    }

    /// Keys of the map, in insertion order
    pub fn keys_vec(&self) -> (r: Vec<K>)
        requires
            self.wf(),
        ensures
            r@ == self.keys(),
            distinct(r@),
            r@.to_set() == self@.dom(),
    {
        proof {
            self.lemma_keys();
        }
        let mut out: Vec<K> = Vec::new();
        let mut i: usize = 0;
        while i < self.entries.len()
            invariant
                i <= self.entries@.len(),
                out@ == self.keys().take(i as int),
                self.keys().len() == self.entries@.len(),
            decreases self.entries@.len() - i,
        {
            out.push(self.entries[i].0);
            i += 1;
            assert(out@ =~= self.keys().take(i as int));
        }
        assert(self.keys().take(self.keys().len() as int) =~= self.keys());
        out
    }

    /// Remove the entry for `k`, if any
    pub fn remove(&mut self, k: &K)
        requires
            old(self).wf(),
        ensures
            final(self).wf(),
            final(self)@ == old(self)@.remove(*k),
    {
        match self.find(k) {
            Some(i) => {
                let ghost e0 = self.entries@;
                self.entries.remove(i);
                proof {
                    lemma_entries_remove(e0, i as int);
                }
            },
            None => {
                assert(self@ =~= old(self)@.remove(*k));
            },
        }
    }

    /// Position of the entry for `k`, if any
    fn find(&self, k: &K) -> (r: Option<usize>)
        requires
            self.wf(),
        ensures
            match r {
                Some(i) => i < self.entries@.len() && self.entries@[i as int].0 == *k,
                None => !self@.dom().contains(*k),
            },
    {
        let mut i: usize = 0;
        while i < self.entries.len()
            invariant
                i <= self.entries@.len(),
                forall|j: int| 0 <= j < i ==> self.entries@[j].0 != *k,
            decreases self.entries.len() - i,
        {
            if self.entries[i].0.key_eq(k) {
                return Some(i);
            }
            i += 1;
        }
        proof {
            if entry_keys(self.entries@).contains(*k) {
                let j = entry_keys(self.entries@).index_of(*k);
                assert(self.entries@[j].0 == *k);
            }
        }
        None
    }

    /// Whether the map holds an entry for `k`
    pub fn contains_key(&self, k: &K) -> (r: bool)
        requires
            self.wf(),
        ensures
            r == self@.dom().contains(*k),
    {
        match self.find(k) {
            Some(i) => {
                proof {
                    lemma_entries_index(self.entries@, i as int);
                }
                true
            },
            None => false,
        }
    }

    /// The value stored for `k`, if any
    pub fn get(&self, k: &K) -> (r: Option<&V>)
        requires
            self.wf(),
        ensures
            match r {
                Some(v) => self@.dom().contains(*k) && *v == self@[*k],
                None => !self@.dom().contains(*k),
            },
    {
        match self.find(k) {
            Some(i) => {
                proof {
                    lemma_entries_index(self.entries@, i as int);
                }
                Some(&self.entries[i].1)
            },
            None => None,
        }
    }

    fn value_mut(&mut self, i: usize) -> (r: &mut V)
        requires
            old(self).wf(),
            i < old(self).entries@.len(),
        ensures
            *r == old(self)@[old(self).entries@[i as int].0],
            final(self).wf(),
            final(self)@ == old(self)@.insert(old(self).entries@[i as int].0, *final(r)),
            final(self).keys() == old(self).keys(),
    {
        proof {
            lemma_entries_index(self.entries@, i as int);
            assert forall|v: V|
                #![trigger self.entries@.update(i as int, (self.entries@[i as int].0, v))]
                entries_map(self.entries@.update(i as int, (self.entries@[i as int].0, v)))
                    == entries_map(self.entries@).insert(self.entries@[i as int].0, v)
                    && entry_keys(self.entries@.update(i as int, (self.entries@[i as int].0, v)))
                    == entry_keys(self.entries@) by {
                lemma_entries_update(self.entries@, i as int, v);
            }
        }
        &mut self.entries[i].1
    }

    /// Mutable access to the value stored for `k`, if any
    pub fn get_mut(&mut self, k: &K) -> (r: Option<&mut V>)
        requires
            old(self).wf(),
        ensures
            match r {
                Some(v) => old(self)@.dom().contains(*k) && *v == old(self)@[*k] && final(self).wf()
                    && final(self)@ == old(self)@.insert(*k, *final(v)) && final(self).keys()
                    == old(self).keys(),
                None => !old(self)@.dom().contains(*k) && *final(self) == *old(self),
            },
    {
        match self.find(k) {
            Some(i) => {
                proof {
                    lemma_entries_index(self.entries@, i as int);
                }
                Some(self.value_mut(i))
            },
            None => None,
        }
    }

    /// Store `v` for `k`, replacing any previous value. A new key goes to the end of the order.
    pub fn insert(&mut self, k: K, v: V)
        requires
            old(self).wf(),
        ensures
            final(self).wf(),
            final(self)@ == old(self)@.insert(k, v),
            final(self).keys() == (if old(self)@.dom().contains(k) {
                old(self).keys()
            } else {
                old(self).keys().push(k)
            }),
    {
        match self.find(&k) {
            Some(i) => {
                proof {
                    lemma_entries_index(self.entries@, i as int);
                    lemma_entries_update(self.entries@, i as int, v);
                }
                self.entries.set(i, (k, v));
            },
            None => {
                proof {
                    lemma_entries_push(self.entries@, k, v);
                }
                self.entries.push((k, v));
            },
        }
    }
}

} // verus!
