use vstd::prelude::*;

verus! {

/// A key with a total order given by an integer rank.
pub trait MapKey: Copy + Sized {
    spec fn rank(self) -> int;

    fn rank_lt(&self, other: &Self) -> (r: bool)
        ensures
            r == (self.rank() < other.rank()),
    ;

    fn rank_eq(&self, other: &Self) -> (r: bool)
        ensures
            r == (self.rank() == other.rank()),
    ;

    proof fn rank_injective(a: Self, b: Self)
        ensures
            a.rank() == b.rank() <==> a == b,
    ;
}

impl MapKey for i64 {
    open spec fn rank(self) -> int {
        self as int
    }

    fn rank_lt(&self, other: &Self) -> (r: bool) {
        *self < *other
    }

    fn rank_eq(&self, other: &Self) -> (r: bool) {
        *self == *other
    }

    proof fn rank_injective(a: Self, b: Self) {
    }
}

impl MapKey for u64 {
    open spec fn rank(self) -> int {
        self as int
    }

    fn rank_lt(&self, other: &Self) -> (r: bool) {
        *self < *other
    }

    fn rank_eq(&self, other: &Self) -> (r: bool) {
        *self == *other
    }

    proof fn rank_injective(a: Self, b: Self) {
    }
}

/// A map kept as a vector of entries in strictly increasing key order, so
/// that walking it visits keys from smallest to largest.
#[derive(Clone, Debug)]
pub struct SortedMap<K, V> {
    entries: Vec<(K, V)>,
}

pub open spec fn strictly_increasing<K: MapKey, V>(s: Seq<(K, V)>) -> bool {
    forall|i: int, j: int| 0 <= i < j < s.len() ==> s[i].0.rank() < s[j].0.rank()
}

pub open spec fn entries_to_map<K, V>(s: Seq<(K, V)>) -> Map<K, V>
    decreases s.len(),
{
    if s.len() == 0 {
        Map::empty()
    } else {
        entries_to_map(s.drop_last()).insert(s.last().0, s.last().1)
    }
}

proof fn lemma_entries_to_map<K: MapKey, V>(s: Seq<(K, V)>)
    requires
        strictly_increasing(s),
    ensures
        forall|k: K| entries_to_map(s).contains_key(k) <==> exists|i: int| 0 <= i < s.len() && s[i].0 == k,
        forall|i: int| 0 <= i < s.len() ==> entries_to_map(s).contains_key(#[trigger] s[i].0) && entries_to_map(s)[s[i].0] == s[i].1,
        entries_to_map(s).dom().finite(),
        entries_to_map(s).dom().len() == s.len(),
    decreases s.len(),
{
    if s.len() > 0 {
        let t = s.drop_last();
        lemma_entries_to_map(t);
        let last = s.last();
        assert(!entries_to_map(t).contains_key(last.0)) by {
            if entries_to_map(t).contains_key(last.0) {
                let i = choose|i: int| 0 <= i < t.len() && t[i].0 == last.0;
                assert(s[i].0.rank() < s[s.len() - 1].0.rank());
            }
        }
        assert forall|k: K| entries_to_map(s).contains_key(k) <==> exists|i: int| 0 <= i < s.len() && s[i].0 == k by {
            if entries_to_map(s).contains_key(k) && k != last.0 {
                let i = choose|i: int| 0 <= i < t.len() && t[i].0 == k;
                assert(s[i].0 == k);
            }
            if exists|i: int| 0 <= i < s.len() && s[i].0 == k {
                let i = choose|i: int| 0 <= i < s.len() && s[i].0 == k;
                if i < s.len() - 1 {
                    assert(t[i].0 == k);
                }
            }
        }
        assert forall|i: int| 0 <= i < s.len() implies entries_to_map(s).contains_key(#[trigger] s[i].0) && entries_to_map(s)[s[i].0] == s[i].1 by {
            if i < s.len() - 1 {
                assert(t[i] == s[i]);
                assert(s[i].0.rank() < last.0.rank());
                K::rank_injective(s[i].0, last.0);
            }
        }
    }
}

impl<K: MapKey, V> SortedMap<K, V> {
    pub closed spec fn entries(&self) -> Seq<(K, V)> {
        self.entries@
    }

    pub closed spec fn well_formed(&self) -> bool {
        strictly_increasing(self.entries@)
    }

    pub closed spec fn view(&self) -> Map<K, V> {
        entries_to_map(self.entries@)
    }

    /// The keys in increasing order.
    pub open spec fn key_seq(&self) -> Seq<K> {
        self.entries().map_values(|e: (K, V)| e.0)
    }

    pub proof fn lemma_view(&self)
        requires
            self.well_formed(),
        ensures
            forall|k: K| self.view().contains_key(k) <==> exists|i: int| 0 <= i < self.entries().len() && self.entries()[i].0 == k,
            forall|i: int| 0 <= i < self.entries().len() ==> self.view().contains_key(#[trigger] self.entries()[i].0) && self.view()[self.entries()[i].0] == self.entries()[i].1,
            self.view().dom().finite(),
            self.view().dom().len() == self.entries().len(),
            strictly_increasing(self.entries()),
    {
        lemma_entries_to_map(self.entries@);
        assert forall|k: K| self.view().contains_key(k) <==> exists|i: int| 0 <= i < self.entries().len() && self.entries()[i].0 == k by {
            if self.view().contains_key(k) {
                let i = choose|i: int| 0 <= i < self.entries@.len() && self.entries@[i].0 == k;
                assert(self.entries()[i].0 == k);
            }
            if exists|i: int| 0 <= i < self.entries().len() && self.entries()[i].0 == k {
                let i = choose|i: int| 0 <= i < self.entries().len() && self.entries()[i].0 == k;
                assert(self.entries@[i].0 == k);
            }
        }
    }

    pub fn new() -> (m: Self)
        ensures
            m.well_formed(),
            m.view() == Map::<K, V>::empty(),
            m.entries().len() == 0,
    {
        SortedMap { entries: Vec::new() }
    }

    pub fn len(&self) -> (n: usize)
        requires
            self.well_formed(),
        ensures
            n == self.view().dom().len(),
            n == self.entries().len(),
    {
        proof { self.lemma_view(); }
        self.entries.len()
    }

    pub fn is_empty(&self) -> (r: bool)
        requires
            self.well_formed(),
        ensures
            r == (self.view().dom().len() == 0),
            r == (self.entries().len() == 0),
    {
        proof { self.lemma_view(); }
        self.entries.len() == 0
    }

    /// Index of the first entry whose key is not below `key`.
    fn lower_bound(&self, key: &K) -> (i: usize)
        requires
            self.well_formed(),
        ensures
            i <= self.entries().len(),
            forall|j: int| 0 <= j < i ==> self.entries()[j].0.rank() < key.rank(),
            forall|j: int| i <= j < self.entries().len() ==> self.entries()[j].0.rank() >= key.rank(),
    {
        let mut i: usize = 0;
        while i < self.entries.len()
            invariant
                i <= self.entries@.len(),
                strictly_increasing(self.entries@),
                forall|j: int| 0 <= j < i ==> self.entries@[j].0.rank() < key.rank(),
            decreases self.entries@.len() - i,
        {
            if !self.entries[i].0.rank_lt(key) {
                return i;
            }
            i = i + 1;
        }
        i
    }

    /// Position of `key` among the entries, if present.
    pub fn find(&self, key: &K) -> (r: Option<usize>)
        requires
            self.well_formed(),
        ensures
            r matches Some(i) ==> i < self.entries().len() && self.entries()[i as int].0 == *key,
            r is None <==> !self.view().contains_key(*key),
            r is Some <==> self.view().contains_key(*key),
    {
        proof { self.lemma_view(); }
        let i = self.lower_bound(key);
        if i < self.entries.len() && self.entries[i].0.rank_eq(key) {
            proof { K::rank_injective(self.entries@[i as int].0, *key); }
            Some(i)
        } else {
            proof {
                if self.view().contains_key(*key) {
                    let j = choose|j: int| 0 <= j < self.entries().len() && self.entries()[j].0 == *key;
                    if j > i {
                        assert(self.entries()[i as int].0.rank() < self.entries()[j].0.rank());
                    }
                }
            }
            None
        }
    }

    pub fn contains_key(&self, key: &K) -> (r: bool)
        requires
            self.well_formed(),
        ensures
            r == self.view().contains_key(*key),
    {
        self.find(key).is_some()
    }

    pub fn get(&self, key: &K) -> (r: Option<&V>)
        requires
            self.well_formed(),
        ensures
            r matches Some(v) ==> self.view().contains_key(*key) && *v == self.view()[*key],
            r is None <==> !self.view().contains_key(*key),
    {
        proof { self.lemma_view(); }
        match self.find(key) {
            Some(i) => Some(&self.entries[i].1),
            None => None,
        }
    }

    /// The entry at a position of the key order.
    pub fn entry_at(&self, i: usize) -> (r: (&K, &V))
        requires
            i < self.entries().len(),
        ensures
            *r.0 == self.entries()[i as int].0,
            *r.1 == self.entries()[i as int].1,
    {
        (&self.entries[i].0, &self.entries[i].1)
    }

    /// Inserts or replaces the value of `key`; returns the replaced value.
    pub fn insert(&mut self, key: K, value: V) -> (r: Option<V>)
        requires
            old(self).well_formed(),
        ensures
            final(self).well_formed(),
            final(self).view() == old(self).view().insert(key, value),
            r matches Some(v) ==> old(self).view().contains_key(key) && v == old(self).view()[key],
            r is None <==> !old(self).view().contains_key(key),
    {
        proof { self.lemma_view(); }
        let ghost old_entries = self.entries@;
        let i = self.lower_bound(&key);
        if i < self.entries.len() && self.entries[i].0.rank_eq(&key) {
            proof { K::rank_injective(self.entries@[i as int].0, key); }
            let old_entry = self.entries.remove(i);
            self.entries.insert(i, (key, value));
            proof {
                assert(self.entries@ =~= old_entries.update(i as int, (key, value)));
                lemma_update_at(old_entries, i as int, key, value);
            }
            Some(old_entry.1)
        } else {
            proof {
                if i < old_entries.len() && old_entries[i as int].0.rank() == key.rank() {
                    K::rank_injective(old_entries[i as int].0, key);
                }
            }
            self.entries.insert(i, (key, value));
            proof {
                assert(self.entries@ =~= old_entries.insert(i as int, (key, value)));
                lemma_insert_at(old_entries, i as int, key, value);
            }
            None
        }
    }

    /// Removes `key`; returns its value when it was present.
    pub fn remove(&mut self, key: &K) -> (r: Option<V>)
        requires
            old(self).well_formed(),
        ensures
            final(self).well_formed(),
            final(self).view() == old(self).view().remove(*key),
            r matches Some(v) ==> old(self).view().contains_key(*key) && v == old(self).view()[*key],
            r is None <==> !old(self).view().contains_key(*key),
    {
        proof { self.lemma_view(); }
        let ghost old_entries = self.entries@;
        match self.find(key) {
            Some(i) => {
                let (_, v) = self.entries.remove(i);
                proof {
                    assert(self.entries@ =~= old_entries.remove(i as int));
                    lemma_remove_at(old_entries, i as int);
                }
                Some(v)
            },
            None => {
                assert(self.view() =~= old(self).view().remove(*key));
                None
            },
        }
    }
}

proof fn lemma_update_at<K: MapKey, V>(old_entries: Seq<(K, V)>, i: int, key: K, value: V)
    requires
        strictly_increasing(old_entries),
        0 <= i < old_entries.len(),
        old_entries[i].0 == key,
    ensures
        strictly_increasing(old_entries.update(i, (key, value))),
        entries_to_map(old_entries.update(i, (key, value))) == entries_to_map(old_entries).insert(key, value),
{
    let s = old_entries.update(i, (key, value));
    assert(strictly_increasing(s)) by {
        assert forall|a: int, b: int| 0 <= a < b < s.len() implies s[a].0.rank() < s[b].0.rank() by {
            assert(old_entries[a].0.rank() < old_entries[b].0.rank());
        }
    }
    lemma_entries_to_map(s);
    lemma_entries_to_map(old_entries);
    assert(entries_to_map(s) =~= entries_to_map(old_entries).insert(key, value)) by {
        assert forall|k: K| entries_to_map(s).contains_key(k) implies entries_to_map(old_entries).insert(key, value).contains_key(k) && entries_to_map(s)[k] == entries_to_map(old_entries).insert(key, value)[k] by {
            let j = choose|j: int| 0 <= j < s.len() && s[j].0 == k;
            if j != i {
                assert(s[j] == old_entries[j]);
            }
        }
        assert forall|k: K| entries_to_map(old_entries).insert(key, value).contains_key(k) implies entries_to_map(s).contains_key(k) by {
            if k != key {
                let j = choose|j: int| 0 <= j < old_entries.len() && old_entries[j].0 == k;
                assert(s[j] == old_entries[j]);
            } else {
                assert(s[i].0 == key);
            }
        }
    }
}

proof fn lemma_insert_at<K: MapKey, V>(old_entries: Seq<(K, V)>, i: int, key: K, value: V)
    requires
        strictly_increasing(old_entries),
        0 <= i <= old_entries.len(),
        forall|j: int| 0 <= j < i ==> old_entries[j].0.rank() < key.rank(),
        forall|j: int| i <= j < old_entries.len() ==> old_entries[j].0.rank() > key.rank(),
    ensures
        strictly_increasing(old_entries.insert(i, (key, value))),
        entries_to_map(old_entries.insert(i, (key, value))) == entries_to_map(old_entries).insert(key, value),
        !entries_to_map(old_entries).contains_key(key),
{
    let s = old_entries.insert(i, (key, value));
    assert(strictly_increasing(s)) by {
        assert forall|a: int, b: int| 0 <= a < b < s.len() implies s[a].0.rank() < s[b].0.rank() by {
            if b < i {
            } else if b == i {
            } else if a < i {
                assert(s[b] == old_entries[b - 1]);
            } else if a == i {
                assert(s[b] == old_entries[b - 1]);
            } else {
                assert(s[a] == old_entries[a - 1]);
                assert(s[b] == old_entries[b - 1]);
            }
        }
    }
    lemma_entries_to_map(s);
    lemma_entries_to_map(old_entries);
    assert(!entries_to_map(old_entries).contains_key(key)) by {
        if entries_to_map(old_entries).contains_key(key) {
            let j = choose|j: int| 0 <= j < old_entries.len() && old_entries[j].0 == key;
        }
    }
    assert(entries_to_map(s) =~= entries_to_map(old_entries).insert(key, value)) by {
        assert forall|k: K| entries_to_map(s).contains_key(k) implies entries_to_map(old_entries).insert(key, value).contains_key(k) && entries_to_map(s)[k] == entries_to_map(old_entries).insert(key, value)[k] by {
            let j = choose|j: int| 0 <= j < s.len() && s[j].0 == k;
            if j < i {
                assert(s[j] == old_entries[j]);
            } else if j > i {
                assert(s[j] == old_entries[j - 1]);
            }
        }
        assert forall|k: K| entries_to_map(old_entries).insert(key, value).contains_key(k) implies entries_to_map(s).contains_key(k) by {
            if k != key {
                let j = choose|j: int| 0 <= j < old_entries.len() && old_entries[j].0 == k;
                if j < i {
                    assert(s[j] == old_entries[j]);
                } else {
                    assert(s[j + 1] == old_entries[j]);
                }
            } else {
                assert(s[i].0 == key);
            }
        }
    }
}

proof fn lemma_remove_at<K: MapKey, V>(old_entries: Seq<(K, V)>, i: int)
    requires
        strictly_increasing(old_entries),
        0 <= i < old_entries.len(),
    ensures
        strictly_increasing(old_entries.remove(i)),
        entries_to_map(old_entries.remove(i)) == entries_to_map(old_entries).remove(old_entries[i].0),
{
    let s = old_entries.remove(i);
    let key = old_entries[i].0;
    assert(strictly_increasing(s)) by {
        assert forall|a: int, b: int| 0 <= a < b < s.len() implies s[a].0.rank() < s[b].0.rank() by {
            if a < i && b < i {
            } else if a < i {
                assert(s[b] == old_entries[b + 1]);
            } else {
                assert(s[a] == old_entries[a + 1]);
                assert(s[b] == old_entries[b + 1]);
            }
        }
    }
    lemma_entries_to_map(s);
    lemma_entries_to_map(old_entries);
    assert(entries_to_map(s) =~= entries_to_map(old_entries).remove(key)) by {
        assert forall|k: K| entries_to_map(s).contains_key(k) implies entries_to_map(old_entries).remove(key).contains_key(k) && entries_to_map(s)[k] == entries_to_map(old_entries)[k] by {
            let j = choose|j: int| 0 <= j < s.len() && s[j].0 == k;
            if j < i {
                assert(s[j] == old_entries[j]);
                assert(old_entries[j].0.rank() < old_entries[i].0.rank());
            } else {
                assert(s[j] == old_entries[j + 1]);
                assert(old_entries[i].0.rank() < old_entries[j + 1].0.rank());
            }
        }
        assert forall|k: K| entries_to_map(old_entries).remove(key).contains_key(k) implies entries_to_map(s).contains_key(k) by {
            let j = choose|j: int| 0 <= j < old_entries.len() && old_entries[j].0 == k;
            if j < i {
                assert(s[j] == old_entries[j]);
            } else {
                assert(j != i);
                assert(s[j - 1] == old_entries[j]);
            }
        }
    }
}

impl<K: MapKey, V: Copy> SortedMap<K, V> {
    /// An entry-for-entry copy.
    pub fn clone_map(&self) -> (r: Self)
        ensures
            r.entries() == self.entries(),
            r.well_formed() == self.well_formed(),
            r.view() == self.view(),
    {
        let mut entries: Vec<(K, V)> = Vec::new();
        let mut i: usize = 0;
        while i < self.entries.len()
            invariant
                i <= self.entries@.len(),
                entries@ == self.entries@.subrange(0, i as int),
            decreases self.entries@.len() - i,
        {
            let (k, v) = self.entries[i];
            entries.push((k, v));
            assert(entries@ =~= self.entries@.subrange(0, i + 1));
            i = i + 1;
        }
        assert(entries@ =~= self.entries@);
        SortedMap { entries }
    }
}

impl<K: MapKey, V> Default for SortedMap<K, V> {
    fn default() -> (r: Self)
        ensures
            r.well_formed(),
            r.view() == Map::<K, V>::empty(),
            r.entries().len() == 0,
    {
        SortedMap::new()
    }
}

/// Filtering a sequence extended by one element.
pub proof fn lemma_filter_push<A>(s: Seq<A>, f: spec_fn(A) -> bool, x: A)
    ensures
        s.push(x).filter(f) == (if f(x) { s.filter(f).push(x) } else { s.filter(f) }),
{
    reveal(Seq::filter);
    assert(s.push(x).drop_last() =~= s);
}

/// `i` is the position of the first element of `s` satisfying `p`.
pub open spec fn is_first<A>(s: Seq<A>, p: spec_fn(A) -> bool, i: int) -> bool {
    &&& 0 <= i < s.len()
    &&& p(s[i])
    &&& forall|j: int| 0 <= j < i ==> !p(#[trigger] s[j])
}

/// The first element of `s` satisfying `p`, if any.
pub open spec fn first_where<A>(s: Seq<A>, p: spec_fn(A) -> bool) -> Option<A> {
    if exists|i: int| is_first(s, p, i) {
        Some(s[choose|i: int| is_first(s, p, i)])
    } else {
        None
    }
}

pub proof fn lemma_first_where_at<A>(s: Seq<A>, p: spec_fn(A) -> bool, i: int)
    requires
        is_first(s, p, i),
    ensures
        first_where(s, p) == Some(s[i]),
{
    let k = choose|k: int| is_first(s, p, k);
    if k < i {
        assert(!p(s[k]));
    }
    if i < k {
        assert(!p(s[i]));
    }
}

/// Whatever satisfies the predicate, a first element that does exists.
pub proof fn lemma_first_exists<A>(s: Seq<A>, p: spec_fn(A) -> bool, i: int)
    requires
        0 <= i < s.len(),
        p(s[i]),
    ensures
        exists|k: int| is_first(s, p, k),
    decreases i,
{
    if exists|j: int| 0 <= j < i && p(#[trigger] s[j]) {
        let j = choose|j: int| 0 <= j < i && p(#[trigger] s[j]);
        lemma_first_exists(s, p, j);
    } else {
        assert(is_first(s, p, i));
    }
}

pub proof fn lemma_first_where_none<A>(s: Seq<A>, p: spec_fn(A) -> bool)
    requires
        forall|j: int| 0 <= j < s.len() ==> !p(#[trigger] s[j]),
    ensures
        first_where(s, p) is None,
{
    if exists|i: int| is_first(s, p, i) {
        let k = choose|k: int| is_first(s, p, k);
        assert(!p(s[k]));
    }
}

/// Filtering keeps a sequence free of repeats.
pub proof fn lemma_filter_no_duplicates<A>(s: Seq<A>, p: spec_fn(A) -> bool)
    requires
        s.no_duplicates(),
    ensures
        s.filter(p).no_duplicates(),
    decreases s.len(),
{
    if s.len() > 0 {
        let t = s.drop_last();
        let x = s.last();
        assert(s =~= t.push(x));
        assert(t.no_duplicates());
        lemma_filter_no_duplicates(t, p);
        t.lemma_filter_push(x, p);
        if p(x) && t.filter(p).contains(x) {
            t.lemma_filter_contains_rev(p, x);
            let k = choose|k: int| 0 <= k < t.len() && t[k] == x;
            assert(s[k] == s[s.len() - 1]);
        }
    }
}

/// An element survives filtering exactly when it is there and passes.
pub proof fn lemma_filter_member<A>(s: Seq<A>, p: spec_fn(A) -> bool, x: A)
    ensures
        s.filter(p).contains(x) <==> (s.contains(x) && p(x)),
{
    if s.filter(p).contains(x) {
        s.lemma_filter_contains_rev(p, x);
        let k = choose|k: int| 0 <= k < s.filter(p).len() && s.filter(p)[k] == x;
        s.lemma_filter_pred(p, k);
    }
    if s.contains(x) && p(x) {
        let k = choose|k: int| 0 <= k < s.len() && s[k] == x;
        s.lemma_filter_contains(p, k);
    }
}

pub open spec fn keys_increasing<K: MapKey>(s: Seq<K>) -> bool {
    forall|i: int, j: int| 0 <= i < j < s.len() ==> (#[trigger] s[i]).rank() < (#[trigger] s[j]).rank()
}

/// Two key lists in increasing order with the same members are equal.
pub proof fn lemma_increasing_unique<K: MapKey>(a: Seq<K>, b: Seq<K>)
    requires
        keys_increasing(a),
        keys_increasing(b),
        forall|k: K| a.contains(k) <==> b.contains(k),
    ensures
        a == b,
    decreases a.len(),
{
    if a.len() == 0 {
        if b.len() > 0 {
            assert(b.contains(b[0]));
        }
        assert(a =~= b);
    } else {
        assert(a.contains(a[0]));
        assert(b.len() > 0);
        assert(b.contains(b[0]));
        let j = choose|j: int| 0 <= j < b.len() && b[j] == a[0];
        let i = choose|i: int| 0 <= i < a.len() && a[i] == b[0];
        if i > 0 {
            assert(a[0].rank() < a[i].rank());
        }
        if j > 0 {
            assert(b[0].rank() < b[j].rank());
        }
        K::rank_injective(a[0], b[0]);
        assert(a[0] == b[0]);
        let a1 = a.drop_first();
        let b1 = b.drop_first();
        assert forall|k: K| a1.contains(k) <==> b1.contains(k) by {
            if a1.contains(k) {
                let p = choose|p: int| 0 <= p < a1.len() && a1[p] == k;
                assert(a[p + 1] == k);
                assert(a[0].rank() < a[p + 1].rank());
                K::rank_injective(a[0], k);
                assert(b.contains(k));
                let q = choose|q: int| 0 <= q < b.len() && b[q] == k;
                assert(q != 0);
                assert(b1[q - 1] == k);
            }
            if b1.contains(k) {
                let p = choose|p: int| 0 <= p < b1.len() && b1[p] == k;
                assert(b[p + 1] == k);
                assert(b[0].rank() < b[p + 1].rank());
                K::rank_injective(b[0], k);
                assert(a.contains(k));
                let q = choose|q: int| 0 <= q < a.len() && a[q] == k;
                assert(q != 0);
                assert(a1[q - 1] == k);
            }
        }
        lemma_increasing_unique(a1, b1);
        assert(a.len() == b.len());
        assert forall|i: int| 0 <= i < a.len() implies a[i] == b[i] by {
            if i > 0 {
                assert(a[i] == a1[i - 1]);
                assert(b[i] == b1[i - 1]);
            }
        }
        assert(a =~= b);
    }
}

impl<K: MapKey, V> SortedMap<K, V> {
    /// The key order of a map depends on its keys alone.
    pub proof fn lemma_key_seq_determined<W>(&self, other: &SortedMap<K, W>)
        requires
            self.well_formed(),
            other.well_formed(),
            self.view().dom() == other.view().dom(),
        ensures
            self.key_seq() == other.key_seq(),
    {
        self.lemma_view();
        other.lemma_view();
        let a = self.key_seq();
        let b = other.key_seq();
        assert forall|k: K| a.contains(k) <==> b.contains(k) by {
            if a.contains(k) {
                let i = choose|i: int| 0 <= i < a.len() && a[i] == k;
                assert(self.entries()[i].0 == k);
                assert(other.view().contains_key(k));
                let j = choose|j: int| 0 <= j < other.entries().len() && other.entries()[j].0 == k;
                assert(b[j] == k);
            }
            if b.contains(k) {
                let i = choose|i: int| 0 <= i < b.len() && b[i] == k;
                assert(other.entries()[i].0 == k);
                assert(self.view().contains_key(k));
                let j = choose|j: int| 0 <= j < self.entries().len() && self.entries()[j].0 == k;
                assert(a[j] == k);
            }
        }
        assert(keys_increasing(a)) by {
            assert forall|i: int, j: int| 0 <= i < j < a.len() implies (#[trigger] a[i]).rank() < (#[trigger] a[j]).rank() by {
                assert(self.entries()[i].0.rank() < self.entries()[j].0.rank());
            }
        }
        assert(keys_increasing(b)) by {
            assert forall|i: int, j: int| 0 <= i < j < b.len() implies (#[trigger] b[i]).rank() < (#[trigger] b[j]).rank() by {
                assert(other.entries()[i].0.rank() < other.entries()[j].0.rank());
            }
        }
        lemma_increasing_unique(a, b);
    }
}

} // verus!
