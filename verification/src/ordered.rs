//! Maps and sets that keep their keys in ascending order, so that whatever
//! walks them sees the same order on every run.
//!
//! They stand where a program would reach for the ordered map and set of the
//! standard library. Those can be named and called here, but nothing is
//! known of the result where the keys are text: what is specified of them
//! holds under a law on the order of the key type that is not at hand for
//! `String`, and their view is keyed by the `String` and not by its text.
//! Here the order of a key type is stated and proved with the type
//! (`SortKey`), and a map is a vector of entries in that order: a key is
//! found by halving, an entry is put in or taken out by shifting those
//! behind it.

use vstd::prelude::*;

verus! {

/// A key with a strict total order on its model.
pub trait SortKey: DeepView + Sized {
    /// `a` sorts strictly before `b`.
    spec fn before(a: Self::V, b: Self::V) -> bool;

    /// `before` is irreflexive, transitive and total.
    proof fn order_laws()
        ensures
            forall|a: Self::V| !(#[trigger] Self::before(a, a)),
            forall|a: Self::V, b: Self::V, c: Self::V|
                #[trigger] Self::before(a, b) && #[trigger] Self::before(b, c) ==> Self::before(
                    a,
                    c,
                ),
            forall|a: Self::V, b: Self::V|
                a != b ==> #[trigger] Self::before(a, b) || #[trigger] Self::before(b, a),
    ;

    fn precedes(&self, other: &Self) -> (r: bool)
        ensures
            r == Self::before(self.deep_view(), other.deep_view()),
    ;
}

/// Each element sorts strictly before every later one.
pub open spec fn ascending<K: SortKey>(s: Seq<K::V>) -> bool {
    forall|i: int, j: int| 0 <= i < j < s.len() ==> K::before(#[trigger] s[i], #[trigger] s[j])
}

/// The elements of `set` in ascending order.
pub open spec fn ascending_seq<K: SortKey>(set: Set<K::V>) -> Seq<K::V> {
    choose|s: Seq<K::V>| ascending::<K>(s) && s.to_set() == set
}

/// The map that takes each key to the value at the key's position.
pub open spec fn paired<A, B>(keys: Seq<A>, values: Seq<B>) -> Map<A, B> {
    Map::new(
        |k: A| keys.contains(k),
        |k: A| values[choose|i: int| 0 <= i < keys.len() && keys[i] == k],
    )
}

/// An ascending sequence holds nothing twice.
pub proof fn lemma_ascending_distinct<K: SortKey>(s: Seq<K::V>)
    requires
        ascending::<K>(s),
    ensures
        s.no_duplicates(),
{
    K::order_laws();
    assert forall|i: int, j: int| 0 <= i < s.len() && 0 <= j < s.len() && i != j implies s[i]
        != s[j] by {
        if i < j {
            assert(K::before(s[i], s[j]));
        } else {
            assert(K::before(s[j], s[i]));
        }
    }
}

/// Two ascending sequences with the same elements are the same sequence:
/// a set has one ascending order.
pub proof fn lemma_ascending_unique<K: SortKey>(s: Seq<K::V>, t: Seq<K::V>)
    requires
        ascending::<K>(s),
        ascending::<K>(t),
        s.to_set() == t.to_set(),
    ensures
        s == t,
    decreases s.len(),
{
    K::order_laws();
    if s.len() == 0 {
        if t.len() > 0 {
            assert(t.to_set().contains(t[0]));
            assert(s.contains(t[0]));
        }
        assert(s =~= t);
    } else if t.len() == 0 {
        assert(s.to_set().contains(s[0]));
        assert(t.contains(s[0]));
    } else {
        // The least element of the set heads both sequences.
        assert(s.to_set().contains(s[0]));
        assert(t.contains(s[0]));
        let a = choose|a: int| 0 <= a < t.len() && t[a] == s[0];
        assert(t.to_set().contains(t[0]));
        assert(s.contains(t[0]));
        let b = choose|b: int| 0 <= b < s.len() && s[b] == t[0];
        if a > 0 {
            assert(K::before(t[0], t[a]));
            if b > 0 {
                assert(K::before(s[0], s[b]));
            }
        }
        assert(s[0] == t[0]);
        let s1 = s.drop_first();
        let t1 = t.drop_first();
        assert(ascending::<K>(s1)) by {
            assert forall|i: int, j: int| 0 <= i < j < s1.len() implies K::before(
                #[trigger] s1[i],
                #[trigger] s1[j],
            ) by {
                assert(K::before(s[i + 1], s[j + 1]));
            }
        }
        assert(ascending::<K>(t1)) by {
            assert forall|i: int, j: int| 0 <= i < j < t1.len() implies K::before(
                #[trigger] t1[i],
                #[trigger] t1[j],
            ) by {
                assert(K::before(t[i + 1], t[j + 1]));
            }
        }
        assert forall|x: K::V| s1.to_set().contains(x) <==> t1.to_set().contains(x) by {
            if s1.contains(x) {
                let i = choose|i: int| 0 <= i < s1.len() && s1[i] == x;
                assert(s[i + 1] == x);
                assert(K::before(s[0], s[i + 1]));
                assert(s.to_set().contains(x));
                assert(t.contains(x));
                let j = choose|j: int| 0 <= j < t.len() && t[j] == x;
                assert(t1[j - 1] == x);
            }
            if t1.contains(x) {
                let i = choose|i: int| 0 <= i < t1.len() && t1[i] == x;
                assert(t[i + 1] == x);
                assert(K::before(t[0], t[i + 1]));
                assert(t.to_set().contains(x));
                assert(s.contains(x));
                let j = choose|j: int| 0 <= j < s.len() && s[j] == x;
                assert(s1[j - 1] == x);
            }
        }
        assert(s1.to_set() =~= t1.to_set());
        lemma_ascending_unique::<K>(s1, t1);
        assert(s =~= seq![s[0]] + s1);
        assert(t =~= seq![t[0]] + t1);
    }
}

/// An ascending sequence is the ascending order of the set of its elements.
pub proof fn lemma_ascending_seq<K: SortKey>(s: Seq<K::V>)
    requires
        ascending::<K>(s),
    ensures
        ascending_seq::<K>(s.to_set()) == s,
{
    let t = ascending_seq::<K>(s.to_set());
    assert(ascending::<K>(t) && t.to_set() == s.to_set());
    lemma_ascending_unique::<K>(s, t);
}

/// `s` with `x` put where the order wants it.
pub open spec fn placed<K: SortKey>(s: Seq<K::V>, x: K::V) -> Seq<K::V>
    decreases s.len(),
{
    if s.len() == 0 {
        seq![x]
    } else if K::before(s.last(), x) {
        s.push(x)
    } else {
        placed::<K>(s.drop_last(), x).push(s.last())
    }
}

/// Placing a new element in an ascending sequence leaves it ascending and
/// adds that element alone.
pub proof fn lemma_placed<K: SortKey>(s: Seq<K::V>, x: K::V)
    requires
        ascending::<K>(s),
        !s.contains(x),
    ensures
        ascending::<K>(placed::<K>(s, x)),
        placed::<K>(s, x).to_set() == s.to_set().insert(x),
    decreases s.len(),
{
    K::order_laws();
    let r = placed::<K>(s, x);
    if s.len() == 0 {
        assert(r =~= s.push(x));
        s.lemma_push_to_set_commute(x);
    } else if K::before(s.last(), x) {
        assert forall|i: int, j: int| 0 <= i < j < r.len() implies K::before(
            #[trigger] r[i],
            #[trigger] r[j],
        ) by {
            if j == s.len() {
                if i < s.len() - 1 {
                    assert(K::before(s[i], s[s.len() - 1]));
                }
            } else {
                assert(K::before(s[i], s[j]));
            }
        }
        s.lemma_push_to_set_commute(x);
    } else {
        let front = s.drop_last();
        let last = s.last();
        assert(s =~= front.push(last));
        assert(ascending::<K>(front)) by {
            assert forall|i: int, j: int| 0 <= i < j < front.len() implies K::before(
                #[trigger] front[i],
                #[trigger] front[j],
            ) by {
                assert(K::before(s[i], s[j]));
            }
        }
        assert(!front.contains(x)) by {
            if front.contains(x) {
                let j = choose|j: int| 0 <= j < front.len() && front[j] == x;
                assert(s[j] == x);
            }
        }
        assert(s[s.len() - 1] == last);
        assert(last != x);
        assert(K::before(x, last));
        lemma_placed::<K>(front, x);
        let q = placed::<K>(front, x);
        assert(r =~= q.push(last));
        assert forall|i: int, j: int| 0 <= i < j < r.len() implies K::before(
            #[trigger] r[i],
            #[trigger] r[j],
        ) by {
            if j == q.len() {
                assert(q.to_set().contains(q[i]));
                if q[i] != x {
                    assert(front.contains(q[i]));
                    let a = choose|a: int| 0 <= a < front.len() && front[a] == q[i];
                    assert(K::before(s[a], s[s.len() - 1]));
                }
            } else {
                assert(K::before(q[i], q[j]));
            }
        }
        q.lemma_push_to_set_commute(last);
        front.lemma_push_to_set_commute(last);
        assert(r.to_set() =~= s.to_set().insert(x));
    }
}

/// Every finite set has an ascending order, and `ascending_seq` is it.
pub proof fn lemma_ascending_seq_of<K: SortKey>(set: Set<K::V>)
    requires
        set.finite(),
    ensures
        ascending::<K>(ascending_seq::<K>(set)),
        ascending_seq::<K>(set).to_set() == set,
        ascending_seq::<K>(set).len() == set.len(),
    decreases set.len(),
{
    if set.len() == 0 {
        let none = Seq::<K::V>::empty();
        assert(set =~= Set::empty());
        assert(none.to_set() =~= set);
        assert(ascending::<K>(none));
    } else {
        let x = set.choose();
        let rest = set.remove(x);
        lemma_ascending_seq_of::<K>(rest);
        let s = ascending_seq::<K>(rest);
        assert(!s.contains(x)) by {
            if s.contains(x) {
                assert(s.to_set().contains(x));
            }
        }
        lemma_placed::<K>(s, x);
        assert(placed::<K>(s, x).to_set() =~= set);
    }
    let order = ascending_seq::<K>(set);
    lemma_ascending_distinct::<K>(order);
    order.unique_seq_to_set();
}

/// With distinct keys, `paired` holds each key with the value at its position.
pub proof fn lemma_paired_at<A, B>(keys: Seq<A>, values: Seq<B>, i: int)
    requires
        keys.no_duplicates(),
        0 <= i < keys.len(),
    ensures
        paired(keys, values).contains_key(keys[i]),
        paired(keys, values)[keys[i]] == values[i],
{
    assert(keys.contains(keys[i]));
    let j = choose|j: int| 0 <= j < keys.len() && keys[j] == keys[i];
    assert(j == i);
}

/// A map whose entries are kept in ascending order of their keys.
#[derive(Debug)]
pub struct OrderedMap<K: SortKey, V> {
    entries: Vec<(K, V)>,
}

impl<K: SortKey, V> View for OrderedMap<K, V> {
    type V = Map<K::V, V>;

    closed spec fn view(&self) -> Map<K::V, V> {
        paired(self.keys(), self.values())
    }
}

impl<K: SortKey, V: DeepView> DeepView for OrderedMap<K, V> {
    type V = Map<K::V, V::V>;

    open spec fn deep_view(&self) -> Map<K::V, V::V> {
        self@.map_values(|v: V| v.deep_view())
    }
}

impl<K: SortKey, V> OrderedMap<K, V> {
    /// The keys, in the order in which the map holds them.
    pub closed spec fn keys(&self) -> Seq<K::V> {
        Seq::new(self.entries@.len(), |i: int| self.entries@[i].0.deep_view())
    }

    /// The values, each at the position of its key in `keys`.
    pub closed spec fn values(&self) -> Seq<V> {
        Seq::new(self.entries@.len(), |i: int| self.entries@[i].1)
    }

    /// The keys ascend, and the view pairs each with its value. This holds of
    /// every map that a program holds: see `ordered` and `lemma_wf`.
    pub open spec fn wf(&self) -> bool {
        &&& ascending::<K>(self.keys())
        &&& self.keys().len() == self.values().len()
        &&& self.keys() == ascending_seq::<K>(self@.dom())
        &&& self@.dom().finite()
        &&& forall|i: int|
            0 <= i < self.keys().len() ==> self@.contains_key(#[trigger] self.keys()[i])
                && self@[self.keys()[i]] == self.values()[i]
    }

    /// The invariant of the type: the keys ascend.
    #[verifier::type_invariant]
    pub closed spec fn ordered(&self) -> bool {
        ascending::<K>(self.keys())
    }

    /// What follows from the invariant of the type.
    pub proof fn lemma_wf(&self)
        requires
            self.ordered(),
        ensures
            self.wf(),
            self.keys().no_duplicates(),
            self@.dom() == self.keys().to_set(),
    {
        lemma_ascending_distinct::<K>(self.keys());
        assert(self@.dom() =~= self.keys().to_set());
        lemma_ascending_seq::<K>(self.keys());
        vstd::seq_lib::seq_to_set_is_finite(self.keys());
        assert forall|i: int| 0 <= i < self.keys().len() implies self@.contains_key(
            #[trigger] self.keys()[i],
        ) && self@[self.keys()[i]] == self.values()[i] by {
            lemma_paired_at(self.keys(), self.values(), i);
        }
    }

    pub fn new() -> (m: Self)
        ensures
            m.wf(),
            m@ == Map::<K::V, V>::empty(),
            m.keys() == Seq::<K::V>::empty(),
    {
        let m = OrderedMap { entries: Vec::new() };
        proof {
            assert(m.keys() =~= Seq::<K::V>::empty());
            assert(m@ =~= Map::<K::V, V>::empty());
            m.lemma_wf();
        }
        m
    }

    pub fn len(&self) -> (n: usize)
        ensures
            self.wf(),
            n == self.keys().len(),
            n == self@.dom().len(),
    {
        proof {
            use_type_invariant(self);
            self.lemma_wf();
            self.keys().unique_seq_to_set();
        }
        self.entries.len()
    }

    /// The key at place `i` of the ascending order.
    pub fn key_at(&self, i: usize) -> (key: &K)
        requires
            i < self.keys().len(),
        ensures
            self.wf(),
            key.deep_view() == self.keys()[i as int],
    {
        proof {
            use_type_invariant(self);
            self.lemma_wf();
        }
        &self.entries[i].0
    }

    /// The value that belongs to the key at place `i`.
    pub fn value_at(&self, i: usize) -> (value: &V)
        requires
            i < self.keys().len(),
        ensures
            self.wf(),
            *value == self.values()[i as int],
            *value == self@[self.keys()[i as int]],
    {
        proof {
            use_type_invariant(self);
            self.lemma_wf();
        }
        &self.entries[i].1
    }

    /// Number of keys that sort before `key`: the place where it is, or would
    /// be. Found by halving the range in which the place can lie.
    fn position(&self, key: &K) -> (i: usize)
        ensures
            i <= self.keys().len(),
            forall|j: int| 0 <= j < i ==> K::before(#[trigger] self.keys()[j], key.deep_view()),
            forall|j: int|
                i <= j < self.keys().len() ==> !K::before(
                    #[trigger] self.keys()[j],
                    key.deep_view(),
                ),
    {
        proof {
            use_type_invariant(self);
            K::order_laws();
        }
        let ghost keys = self.keys();
        let ghost k = key.deep_view();
        let mut low: usize = 0;
        let mut high: usize = self.entries.len();
        while low < high
            invariant
                low <= high <= keys.len(),
                keys == self.keys(),
                keys.len() == self.entries@.len(),
                k == key.deep_view(),
                ascending::<K>(keys),
                forall|a: K::V, b: K::V, c: K::V|
                    #[trigger] K::before(a, b) && #[trigger] K::before(b, c) ==> K::before(a, c),
                forall|j: int| 0 <= j < low ==> K::before(#[trigger] keys[j], k),
                forall|j: int| high <= j < keys.len() ==> !K::before(#[trigger] keys[j], k),
            decreases high - low,
        {
            let middle = low + (high - low) / 2;
            if self.entries[middle].0.precedes(key) {
                proof {
                    assert forall|j: int| 0 <= j < middle + 1 implies K::before(
                        #[trigger] keys[j],
                        k,
                    ) by {
                        if j < middle {
                            assert(K::before(keys[j], keys[middle as int]));
                        }
                    }
                }
                low = middle + 1;
            } else {
                proof {
                    assert forall|j: int| middle <= j < keys.len() implies !K::before(
                        #[trigger] keys[j],
                        k,
                    ) by {
                        if middle < j {
                            assert(K::before(keys[middle as int], keys[j]));
                        }
                    }
                }
                high = middle;
            }
        }
        low
    }

    /// Place of `key` among the keys, if the map holds it.
    fn find(&self, key: &K) -> (place: Option<usize>)
        ensures
            self.wf(),
            match place {
                Some(i) => i < self.keys().len() && self.keys()[i as int] == key.deep_view(),
                None => !self.keys().contains(key.deep_view()),
            },
            place is Some <==> self@.contains_key(key.deep_view()),
    {
        proof {
            use_type_invariant(self);
            self.lemma_wf();
            K::order_laws();
        }
        let i = self.position(key);
        if i < self.entries.len() && !key.precedes(&self.entries[i].0) {
            proof {
                assert(self.keys()[i as int] == key.deep_view());
                assert(self.keys().contains(key.deep_view()));
            }
            Some(i)
        } else {
            proof {
                assert forall|j: int| 0 <= j < self.keys().len() implies self.keys()[j]
                    != key.deep_view() by {
                    if j >= i && j > i {
                        assert(K::before(self.keys()[i as int], self.keys()[j]));
                    }
                }
            }
            None
        }
    }

    pub fn contains_key(&self, key: &K) -> (held: bool)
        ensures
            self.wf(),
            held == self@.contains_key(key.deep_view()),
    {
        self.find(key).is_some()
    }

    pub fn get(&self, key: &K) -> (value: Option<&V>)
        ensures
            self.wf(),
            match value {
                Some(v) => self@.contains_key(key.deep_view()) && *v == self@[key.deep_view()],
                None => !self@.contains_key(key.deep_view()),
            },
    {
        match self.find(key) {
            Some(i) => Some(&self.entries[i].1),
            None => None,
        }
    }

    /// Puts `value` under `key`, handing back the value that was there.
    pub fn insert(&mut self, key: K, value: V) -> (prior: Option<V>)
        ensures
            final(self).wf(),
            final(self)@ == old(self)@.insert(key.deep_view(), value),
            prior == if old(self)@.contains_key(key.deep_view()) {
                Some(old(self)@[key.deep_view()])
            } else {
                None::<V>
            },
    {
        proof {
            use_type_invariant(&*self);
            self.lemma_wf();
            K::order_laws();
        }
        let ghost k = key.deep_view();
        let ghost keys0 = self.keys();
        let ghost values0 = self.values();
        let i = self.position(&key);
        let found = i < self.entries.len() && !key.precedes(&self.entries[i].0);
        let mut entries: Vec<(K, V)> = Vec::new();
        core::mem::swap(&mut entries, &mut self.entries);
        if found {
            entries.push((key, value));
            let (_, prior) = entries.swap_remove(i);
            proof {
                assert(keys0[i as int] == k);
                assert(Seq::new(entries@.len(), |j: int| entries@[j].0.deep_view()) =~= keys0);
            }
            self.entries = entries;
            proof {
                assert(keys0[i as int] == k);
                assert(self.keys() =~= keys0);
                assert(self.values() =~= values0.update(i as int, value));
                self.lemma_wf();
                assert(self@ =~= paired(keys0, values0).insert(k, value)) by {
                    assert forall|q: K::V| self@.contains_key(q) implies #[trigger] self@[q]
                        == paired(keys0, values0).insert(k, value)[q] by {
                        let j = choose|j: int| 0 <= j < keys0.len() && keys0[j] == q;
                        lemma_paired_at(keys0, values0, j);
                        lemma_paired_at(self.keys(), self.values(), j);
                    }
                }
                lemma_paired_at(keys0, values0, i as int);
            }
            Some(prior)
        } else {
            entries.insert(i, (key, value));
            proof {
                let keys1 = keys0.insert(i as int, k);
                assert(Seq::new(entries@.len(), |j: int| entries@[j].0.deep_view()) =~= keys1);
                assert forall|a: int, b: int| 0 <= a < b < keys1.len() implies K::before(
                    #[trigger] keys1[a],
                    #[trigger] keys1[b],
                ) by {
                    if i < keys0.len() {
                        assert(!K::before(keys0[i as int], k));
                        assert(keys0[i as int] != k);
                        assert(K::before(k, keys0[i as int]));
                    }
                    if a == i {
                        assert(keys1[b] == keys0[b - 1]);
                        if b - 1 > i {
                            assert(K::before(keys0[i as int], keys0[b - 1]));
                        }
                    } else if b == i {
                        assert(keys1[a] == keys0[a]);
                    } else if a < i && b > i {
                        assert(K::before(keys0[a], keys0[b - 1]));
                    } else if a < i {
                        assert(K::before(keys0[a], keys0[b]));
                    } else {
                        assert(K::before(keys0[a - 1], keys0[b - 1]));
                    }
                }
            }
            self.entries = entries;
            proof {
                let keys1 = keys0.insert(i as int, k);
                let values1 = values0.insert(i as int, value);
                assert(self.keys() =~= keys1);
                assert(self.values() =~= values1);
                self.lemma_wf();
                assert forall|j: int| 0 <= j < keys0.len() implies keys0[j] != k by {
                    if j >= i && j > i {
                        assert(K::before(keys0[i as int], keys0[j]));
                    }
                }
                assert(self@ =~= paired(keys0, values0).insert(k, value)) by {
                    assert forall|q: K::V| #[trigger]
                        self@.contains_key(q) <==> (q == k || keys0.contains(q)) by {
                        if keys1.contains(q) {
                            let j = choose|j: int| 0 <= j < keys1.len() && keys1[j] == q;
                            if j < i {
                                assert(keys0[j] == q);
                            } else if j > i {
                                assert(keys0[j - 1] == q);
                            }
                        }
                        if q == k {
                            assert(keys1[i as int] == k);
                        }
                        if keys0.contains(q) {
                            let j = choose|j: int| 0 <= j < keys0.len() && keys0[j] == q;
                            if j < i {
                                assert(keys1[j] == q);
                            } else {
                                assert(keys1[j + 1] == q);
                            }
                        }
                    }
                    assert forall|q: K::V| self@.contains_key(q) implies #[trigger] self@[q]
                        == paired(keys0, values0).insert(k, value)[q] by {
                        if q == k {
                            lemma_paired_at(keys1, values1, i as int);
                        } else {
                            let j = choose|j: int| 0 <= j < keys0.len() && keys0[j] == q;
                            lemma_paired_at(keys0, values0, j);
                            if j < i {
                                lemma_paired_at(keys1, values1, j);
                            } else {
                                lemma_paired_at(keys1, values1, j + 1);
                            }
                        }
                    }
                }
            }
            None
        }
    }

    /// Takes the entry of `key` out of the map and hands back its value.
    pub fn remove(&mut self, key: &K) -> (gone: Option<V>)
        ensures
            final(self).wf(),
            final(self)@ == old(self)@.remove(key.deep_view()),
            gone == if old(self)@.contains_key(key.deep_view()) {
                Some(old(self)@[key.deep_view()])
            } else {
                None::<V>
            },
    {
        proof {
            use_type_invariant(&*self);
            self.lemma_wf();
        }
        let ghost k = key.deep_view();
        let ghost keys0 = self.keys();
        let ghost values0 = self.values();
        match self.find(key) {
            None => {
                proof {
                    assert(self@ =~= self@.remove(k));
                }
                None
            },
            Some(i) => {
                let mut entries: Vec<(K, V)> = Vec::new();
                core::mem::swap(&mut entries, &mut self.entries);
                let (_, gone) = entries.remove(i);
                proof {
                    let keys1 = keys0.remove(i as int);
                    assert(Seq::new(entries@.len(), |j: int| entries@[j].0.deep_view()) =~= keys1);
                    assert forall|a: int, b: int| 0 <= a < b < keys1.len() implies K::before(
                        #[trigger] keys1[a],
                        #[trigger] keys1[b],
                    ) by {
                        let a0 = if a < i { a } else { a + 1 };
                        let b0 = if b < i { b } else { b + 1 };
                        assert(K::before(keys0[a0], keys0[b0]));
                    }
                }
                self.entries = entries;
                proof {
                    let keys1 = keys0.remove(i as int);
                    let values1 = values0.remove(i as int);
                    assert(self.keys() =~= keys1);
                    assert(self.values() =~= values1);
                    self.lemma_wf();
                    lemma_paired_at(keys0, values0, i as int);
                    assert(self@ =~= paired(keys0, values0).remove(k)) by {
                        assert forall|q: K::V| #[trigger]
                            self@.contains_key(q) <==> (q != k && keys0.contains(q)) by {
                            if keys1.contains(q) {
                                let j = choose|j: int| 0 <= j < keys1.len() && keys1[j] == q;
                                if j < i {
                                    assert(keys0[j] == q);
                                } else {
                                    assert(keys0[j + 1] == q);
                                }
                            }
                            if q != k && keys0.contains(q) {
                                let j = choose|j: int| 0 <= j < keys0.len() && keys0[j] == q;
                                if j < i {
                                    assert(keys1[j] == q);
                                } else {
                                    assert(keys1[j - 1] == q);
                                }
                            }
                        }
                        assert forall|q: K::V| self@.contains_key(q) implies #[trigger] self@[q]
                            == paired(keys0, values0).remove(k)[q] by {
                            let j = choose|j: int| 0 <= j < keys0.len() && keys0[j] == q;
                            lemma_paired_at(keys0, values0, j);
                            if j < i {
                                lemma_paired_at(keys1, values1, j);
                            } else {
                                lemma_paired_at(keys1, values1, j - 1);
                            }
                        }
                    }
                }
                Some(gone)
            },
        }
    }

    /// The values alone, in the ascending order of their keys.
    pub fn into_values(self) -> (values: Vec<V>)
        ensures
            values@ == self.values(),
    {
        let ghost all = self.values();
        let mut entries = self.entries;
        let mut backwards: Vec<V> = Vec::new();
        while entries.len() > 0
            invariant
                entries@.len() + backwards@.len() == all.len(),
                forall|j: int| 0 <= j < entries@.len() ==> (#[trigger] entries@[j]).1 == all[j],
                forall|j: int|
                    0 <= j < backwards@.len() ==> #[trigger] backwards@[j] == all[all.len() - 1
                        - j],
            decreases entries@.len(),
        {
            if let Some((_, v)) = entries.pop() {
                backwards.push(v);
            }
        }
        let mut values: Vec<V> = Vec::new();
        while backwards.len() > 0
            invariant
                backwards@.len() + values@.len() == all.len(),
                forall|j: int|
                    0 <= j < backwards@.len() ==> #[trigger] backwards@[j] == all[all.len() - 1
                        - j],
                forall|j: int| 0 <= j < values@.len() ==> #[trigger] values@[j] == all[j],
            decreases backwards@.len(),
        {
            if let Some(v) = backwards.pop() {
                values.push(v);
            }
        }
        assert(values@ =~= all);
        values
    }
}

/// The keys of a map are the domain of its view.
pub proof fn lemma_keys_of<K: SortKey, V>(map: &OrderedMap<K, V>, key: K::V)
    requires
        map.wf(),
    ensures
        map@.contains_key(key) <==> map.keys().contains(key),
        map.keys().to_set() == map@.dom(),
        map.keys().no_duplicates(),
{
    lemma_ascending_distinct::<K>(map.keys());
    assert(map.keys().to_set() =~= map@.dom());
}

/// The deep view of a map has the keys of the map.
pub proof fn lemma_deep_dom<K: SortKey, V: DeepView>(map: &OrderedMap<K, V>)
    requires
        map.wf(),
    ensures
        map.deep_view().dom() == map@.dom(),
        map.keys() == ascending_seq::<K>(map.deep_view().dom()),
{
    assert(map.deep_view().dom() =~= map@.dom());
}

/// A set whose elements are kept in ascending order.
#[derive(Debug)]
pub struct OrderedSet<K: SortKey> {
    members: OrderedMap<K, ()>,
}

impl<K: SortKey> View for OrderedSet<K> {
    type V = Set<K::V>;

    closed spec fn view(&self) -> Set<K::V> {
        self.members@.dom()
    }
}

impl<K: SortKey> DeepView for OrderedSet<K> {
    type V = Set<K::V>;

    open spec fn deep_view(&self) -> Set<K::V> {
        self@
    }
}

impl<K: SortKey> OrderedSet<K> {
    /// The elements, in the order in which the set holds them.
    pub closed spec fn elements(&self) -> Seq<K::V> {
        self.members.keys()
    }

    /// The elements ascend and are those of the view. This holds of every set
    /// that a program holds: see `ordered` and `lemma_wf`.
    pub open spec fn wf(&self) -> bool {
        &&& ascending::<K>(self.elements())
        &&& self.elements() == ascending_seq::<K>(self@)
        &&& self.elements().to_set() == self@
        &&& self@.finite()
    }

    /// The invariant of the type: the elements ascend.
    #[verifier::type_invariant]
    pub closed spec fn ordered(&self) -> bool {
        self.members.ordered()
    }

    /// What follows from the invariant of the type.
    pub proof fn lemma_wf(&self)
        requires
            self.ordered(),
        ensures
            self.wf(),
    {
        self.members.lemma_wf();
        lemma_ascending_seq::<K>(self.elements());
    }

    pub fn new() -> (s: Self)
        ensures
            s.wf(),
            s@ == Set::<K::V>::empty(),
    {
        let s = OrderedSet { members: OrderedMap::new() };
        proof {
            assert(s@ =~= Set::<K::V>::empty());
            assert(s.elements().to_set() =~= s@);
        }
        s
    }

    pub fn len(&self) -> (n: usize)
        ensures
            self.wf(),
            n == self.elements().len(),
            n == self@.len(),
    {
        let n = self.members.len();
        proof {
            lemma_ascending_seq::<K>(self.elements());
        }
        n
    }

    /// The element at place `i` of the ascending order.
    pub fn element_at(&self, i: usize) -> (element: &K)
        requires
            i < self.elements().len(),
        ensures
            self.wf(),
            element.deep_view() == self.elements()[i as int],
    {
        let element = self.members.key_at(i);
        proof {
            lemma_ascending_seq::<K>(self.elements());
        }
        element
    }

    pub fn contains(&self, element: &K) -> (held: bool)
        ensures
            self.wf(),
            held == self@.contains(element.deep_view()),
    {
        let held = self.members.contains_key(element);
        proof {
            lemma_ascending_seq::<K>(self.elements());
        }
        held
    }

    /// Adds `element`; says whether it was new.
    pub fn insert(&mut self, element: K) -> (fresh: bool)
        ensures
            final(self).wf(),
            final(self)@ == old(self)@.insert(element.deep_view()),
            fresh == !old(self)@.contains(element.deep_view()),
    {
        let mut members = OrderedMap::new();
        core::mem::swap(&mut members, &mut self.members);
        let ghost before = members@;
        let prior = members.insert(element, ());
        self.members = members;
        proof {
            assert(self@ =~= before.dom().insert(element.deep_view()));
            lemma_ascending_seq::<K>(self.elements());
        }
        prior.is_none()
    }
}

} // verus!
