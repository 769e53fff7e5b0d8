//! Maps and sets keyed by text, walked in ascending order of the key.

use vstd::prelude::*;
use crate::text::{
    ascending, before, lemma_ascending_distinct, lemma_text_lt_irreflexive, lemma_text_lt_total,
    lemma_text_lt_transitive, same, text_lt, Text,
};

verus! {

/// A map from names to values whose entries stand in ascending order of the name.
#[derive(Debug, PartialEq, Eq)]
pub struct NameMap<V> {
    entries: Vec<(String, V)>,
}

impl<V> View for NameMap<V> {
    type V = Map<Text, V>;

    closed spec fn view(&self) -> Map<Text, V> {
        Map::new(
            |k: Text| self.names().contains(k),
            |k: Text| self.entries@[self.names().index_of(k)].1,
        )
    }
}

impl<V> NameMap<V> {
    /// The names in the order in which the map is walked.
    pub closed spec fn names(self) -> Seq<Text> {
        Seq::new(self.entries@.len(), |i: int| self.entries@[i].0@)
    }

    /// The names ascend, and they are the keys.
    pub open spec fn ordered(self) -> bool {
        &&& ascending(self.names())
        &&& self.names().no_duplicates()
        &&& self@.dom() == self.names().to_set()
    }

    #[verifier::type_invariant]
    spec fn sorted(self) -> bool {
        ascending(self.names())
    }

    proof fn lemma_ordered(self)
        requires
            self.sorted(),
        ensures
            self.ordered(),
            forall|i: int|
                0 <= i < self.names().len() ==> self@[#[trigger] self.names()[i]]
                    == self.entries@[i].1,
    {
        lemma_ascending_distinct(self.names());
        assert(self@.dom() =~= self.names().to_set());
        assert forall|i: int| 0 <= i < self.names().len() implies self@[#[trigger] self.names()[i]]
            == self.entries@[i].1 by {
            assert(self.names().contains(self.names()[i]));
            assert(self.names().index_of(self.names()[i]) == i);
        }
    }

    pub fn new() -> (r: NameMap<V>)
        ensures
            r@ == Map::<Text, V>::empty(),
            r.names() == Seq::<Text>::empty(),
            r.ordered(),
    {
        let r = NameMap { entries: Vec::new() };
        proof {
            assert(r@ =~= Map::empty());
            assert(r.names() =~= Seq::empty());
            r.lemma_ordered();
        }
        r
    }

    pub fn len(&self) -> (n: usize)
        ensures
            n == self.names().len(),
            self.ordered(),
    {
        proof {
            use_type_invariant(self);
            self.lemma_ordered();
        }
        self.entries.len()
    }

    pub fn is_empty(&self) -> (r: bool)
        ensures
            r == (self.names().len() == 0),
            self.ordered(),
    {
        self.len() == 0
    }

    /// The name at a position of the walk.
    pub fn name_at(&self, i: usize) -> (r: &String)
        requires
            i < self.names().len(),
        ensures
            r@ == self.names()[i as int],
            self@.contains_key(r@),
    {
        proof {
            use_type_invariant(self);
            self.lemma_ordered();
            assert(self.names().to_set().contains(self.names()[i as int]));
        }
        &self.entries[i].0
    }

    /// The value at a position of the walk.
    pub fn value_at(&self, i: usize) -> (r: &V)
        requires
            i < self.names().len(),
        ensures
            *r == self@[self.names()[i as int]],
    {
        proof {
            use_type_invariant(self);
            self.lemma_ordered();
            assert(self@[self.names()[i as int]] == self.entries@[i as int].1);
        }
        &self.entries[i].1
    }

    fn lower_bound(&self, key: &str) -> (r: usize)
        ensures
            r <= self.entries.len(),
            forall|j: int| 0 <= j < r ==> text_lt(self.names()[j], key@),
            forall|j: int|
                r <= j < self.entries.len() ==> self.names()[j] == key@ || text_lt(
                    key@,
                    self.names()[j],
                ),
    {
        proof {
            use_type_invariant(self);
        }
        let mut i: usize = 0;
        while i < self.entries.len() && before(self.entries[i].0.as_str(), key)
            invariant
                i <= self.entries.len(),
                forall|j: int| 0 <= j < i ==> text_lt(self.names()[j], key@),
            decreases self.entries.len() - i,
        {
            i = i + 1;
        }
        proof {
            if i < self.entries.len() {
                assert(self.names()[i as int] == self.entries@[i as int].0@);
                lemma_text_lt_total(self.names()[i as int], key@);
                assert forall|j: int| i < j < self.entries.len() implies text_lt(
                    key@,
                    self.names()[j],
                ) by {
                    assert(text_lt(self.names()[i as int], self.names()[j]));
                    if self.names()[i as int] != key@ {
                        lemma_text_lt_transitive(key@, self.names()[i as int], self.names()[j]);
                    }
                }
            }
        }
        i
    }

    /// The position of a name.
    pub fn index_of(&self, key: &str) -> (r: Option<usize>)
        ensures
            self.ordered(),
            match r {
                Some(i) => i < self.names().len() && self.names()[i as int] == key@
                    && self@.contains_key(key@),
                None => !self@.contains_key(key@),
            },
    {
        proof {
            use_type_invariant(self);
            self.lemma_ordered();
        }
        let i: usize = self.lower_bound(key);
        if i < self.entries.len() && same(self.entries[i].0.as_str(), key) {
            proof {
                assert(self.names()[i as int] == key@);
                assert(self.names().to_set().contains(key@));
            }
            Some(i)
        } else {
            proof {
                assert forall|j: int| 0 <= j < self.names().len() implies self.names()[j]
                    != key@ by {
                    lemma_text_lt_irreflexive(key@);
                    if j == i {
                        assert(self.names()[i as int] == self.entries@[i as int].0@);
                    } else if j > i {
                        assert(text_lt(self.names()[i as int], self.names()[j]));
                        if self.names()[j] == key@ {
                            lemma_text_lt_transitive(
                                key@,
                                self.names()[i as int],
                                self.names()[j],
                            );
                        }
                    }
                }
                assert(!self.names().contains(key@));
            }
            None
        }
    }

    pub fn get(&self, key: &str) -> (r: Option<&V>)
        ensures
            match r {
                Some(v) => self@.contains_key(key@) && *v == self@[key@],
                None => !self@.contains_key(key@),
            },
            self.ordered(),
    {
        match self.index_of(key) {
            Some(i) => Some(self.value_at(i)),
            None => None,
        }
    }

    pub fn contains(&self, key: &str) -> (r: bool)
        ensures
            r == self@.contains_key(key@),
            self.ordered(),
    {
        self.index_of(key).is_some()
    }

    proof fn lemma_replaced(was: Self, next: Self, i: int, key: String, value: V)
        requires
            was.sorted(),
            0 <= i < was.entries@.len(),
            was.names()[i] == key@,
            next.entries@ == was.entries@.update(i, (key, value)),
        ensures
            next.sorted(),
            next@ == was@.insert(key@, value),
    {
        assert(next.names() =~= was.names());
        was.lemma_ordered();
        next.lemma_ordered();
        assert(next.names().to_set().contains(next.names()[i]));
        assert(next@.dom() =~= was@.insert(key@, value).dom());
        assert forall|x: Text| next@.contains_key(x) implies next@[x] == was@.insert(
            key@,
            value,
        )[x] by {
            let a = next.names().index_of(x);
            assert(next@[next.names()[a]] == next.entries@[a].1);
            assert(was@[was.names()[a]] == was.entries@[a].1);
        }
        assert(next@ =~= was@.insert(key@, value));
    }

    proof fn lemma_inserted(was: Self, next: Self, i: int, key: String, value: V)
        requires
            was.sorted(),
            0 <= i <= was.entries@.len(),
            forall|j: int| 0 <= j < i ==> text_lt(was.names()[j], key@),
            forall|j: int| i <= j < was.entries@.len() ==> text_lt(key@, was.names()[j]),
            next.entries@ == was.entries@.insert(i, (key, value)),
        ensures
            next.sorted(),
            next@ == was@.insert(key@, value),
    {
        let n = next.names();
        let o = was.names();
        assert(n =~= o.insert(i, key@));
        assert forall|a: int, b: int| 0 <= a < b < n.len() implies text_lt(
            #[trigger] n[a],
            #[trigger] n[b],
        ) by {
            let oa = if a <= i { a } else { a - 1 };
            let ob = if b <= i { b } else { b - 1 };
            if a != i && b != i {
                assert(text_lt(o[oa], o[ob]));
            }
        }
        was.lemma_ordered();
        next.lemma_ordered();
        assert(n[i] == key@);
        assert(!o.contains(key@)) by {
            lemma_text_lt_irreflexive(key@);
        }
        assert forall|x: Text| #[trigger] n.contains(x) == (x == key@ || o.contains(x)) by {
            if n.contains(x) {
                let a = n.index_of(x);
                if a != i {
                    assert(x == o[if a <= i { a } else { a - 1 }]);
                }
            }
            if o.contains(x) {
                let a = o.index_of(x);
                assert(n[if a < i { a } else { a + 1 }] == x);
            }
        }
        assert(next@.dom() =~= was@.insert(key@, value).dom());
        assert forall|x: Text| next@.contains_key(x) implies next@[x] == was@.insert(
            key@,
            value,
        )[x] by {
            assert(n.contains(x));
            let a = n.index_of(x);
            assert(next@[n[a]] == next.entries@[a].1);
            if a != i {
                let oa = if a <= i { a } else { a - 1 };
                assert(was@[o[oa]] == was.entries@[oa].1);
            }
        }
        assert(next@ =~= was@.insert(key@, value));
    }

    pub fn insert(&mut self, key: String, value: V)
        ensures
            final(self)@ == old(self)@.insert(key@, value),
            final(self).ordered(),
    {
        proof {
            use_type_invariant(&*self);
        }
        let ghost was = *self;
        let i: usize = self.lower_bound(key.as_str());
        let mut entries: Vec<(String, V)> = Vec::new();
        std::mem::swap(&mut entries, &mut self.entries);
        let present = i < entries.len() && same(entries[i].0.as_str(), key.as_str());
        if present {
            assert(was.names()[i as int] == key@);
            let _ = entries.remove(i);
            entries.insert(i, (key, value));
            proof {
                assert(entries@ =~= was.entries@.update(i as int, (key, value)));
                Self::lemma_replaced(was, NameMap { entries }, i as int, key, value);
                (NameMap { entries }).lemma_ordered();
            }
        } else {
            proof {
                if i < entries.len() {
                    assert(was.names()[i as int] == was.entries@[i as int].0@);
                    assert forall|j: int| i <= j < was.entries@.len() implies text_lt(
                        key@,
                        was.names()[j],
                    ) by {
                        if j > i {
                            assert(text_lt(was.names()[i as int], was.names()[j]));
                            lemma_text_lt_transitive(key@, was.names()[i as int], was.names()[j]);
                        }
                    }
                }
            }
            entries.insert(i, (key, value));
            proof {
                Self::lemma_inserted(was, NameMap { entries }, i as int, key, value);
                (NameMap { entries }).lemma_ordered();
            }
        }
        self.entries = entries;
    }

    pub fn remove(&mut self, key: &str) -> (r: Option<V>)
        ensures
            final(self)@ == old(self)@.remove(key@),
            final(self).ordered(),
            match r {
                Some(v) => old(self)@.contains_key(key@) && v == old(self)@[key@],
                None => !old(self)@.contains_key(key@),
            },
    {
        proof {
            use_type_invariant(&*self);
            self.lemma_ordered();
        }
        let ghost was = *self;
        match self.index_of(key) {
            None => {
                assert(self@.remove(key@) =~= self@);
                None
            },
            Some(i) => {
                let mut entries: Vec<(String, V)> = Vec::new();
                std::mem::swap(&mut entries, &mut self.entries);
                let entry = entries.remove(i);
                proof {
                    let next = NameMap { entries };
                    let n = next.names();
                    let o = was.names();
                    let k = key@;
                    assert(forall|a: int|
                        0 <= a < n.len() ==> n[a] == o[if a < i { a } else { a + 1 }]);
                    assert forall|a: int, b: int| 0 <= a < b < n.len() implies text_lt(
                        #[trigger] n[a],
                        #[trigger] n[b],
                    ) by {
                        assert(text_lt(
                            o[if a < i { a } else { a + 1 }],
                            o[if b < i { b } else { b + 1 }],
                        ));
                    }
                    assert(next.sorted());
                    next.lemma_ordered();
                    assert forall|x: Text| next@.contains_key(x) == was@.remove(k).contains_key(
                        x,
                    ) by {
                        if n.contains(x) {
                            let a = n.index_of(x);
                            let oa = if a < i { a } else { a + 1 };
                            assert(o[oa] == x);
                            assert(oa != i);
                        }
                        if o.contains(x) && x != k {
                            let a = o.index_of(x);
                            assert(n[if a < i { a } else { a - 1 }] == x);
                        }
                    }
                    assert forall|x: Text| next@.contains_key(x) implies next@[x] == was@[x] by {
                        let a = n.index_of(x);
                        let oa = if a < i { a } else { a + 1 };
                        assert(next@[n[a]] == next.entries@[a].1);
                        assert(was@[o[oa]] == was.entries@[oa].1);
                    }
                    assert(next@ =~= was@.remove(k));
                    assert(was@[o[i as int]] == was.entries@[i as int].1);
                }
                self.entries = entries;
                Some(entry.1)
            },
        }
    }
}

impl<V: Clone> Clone for NameMap<V> {
    fn clone(&self) -> (r: NameMap<V>)
        ensures
            r.ordered(),
            r.names() == self.names(),
            r@.dom() == self@.dom(),
            forall|k: Text| #[trigger] self@.contains_key(k) ==> cloned::<V>(self@[k], r@[k]),
    {
        proof {
            use_type_invariant(self);
            self.lemma_ordered();
        }
        let mut entries: Vec<(String, V)> = Vec::new();
        let mut i: usize = 0;
        while i < self.entries.len()
            invariant
                i <= self.entries.len(),
                entries.len() == i,
                forall|j: int|
                    0 <= j < i ==> #[trigger] entries@[j].0 == self.entries@[j].0 && cloned::<V>(
                        self.entries@[j].1,
                        entries@[j].1,
                    ),
            decreases self.entries.len() - i,
        {
            let name = self.entries[i].0.clone();
            let value = self.entries[i].1.clone();
            entries.push((name, value));
            i = i + 1;
        }
        proof {
            let r = NameMap { entries };
            assert(r.names() =~= self.names());
            r.lemma_ordered();
            assert forall|k: Text| #[trigger] self@.contains_key(k) implies cloned::<V>(
                self@[k],
                r@[k],
            ) by {
                let a = self.names().index_of(k);
                assert(self@[self.names()[a]] == self.entries@[a].1);
                assert(r@[r.names()[a]] == r.entries@[a].1);
                assert(entries@[a].0 == self.entries@[a].0);
            }
        }
        NameMap { entries }
    }
}

/// Two ascending lists with the same members are the same list.
pub proof fn lemma_ascending_unique(a: Seq<Text>, b: Seq<Text>)
    requires
        ascending(a),
        ascending(b),
        a.to_set() == b.to_set(),
    ensures
        a == b,
    decreases a.len(),
{
    if a.len() == 0 {
        if b.len() > 0 {
            assert(b.to_set().contains(b[0]));
            assert(a.to_set().contains(b[0]));
        }
        assert(a =~= b);
    } else {
        assert(a.to_set().contains(a[0]));
        assert(b.to_set().contains(a[0]));
        assert(b.contains(a[0]));
        assert(b.to_set().contains(b[0]));
        assert(a.to_set().contains(b[0]));
        assert(a.contains(b[0]));
        let i = b.index_of(a[0]);
        let j = a.index_of(b[0]);
        if i > 0 {
            assert(text_lt(b[0], b[i]));
            if j > 0 {
                assert(text_lt(a[0], a[j]));
                lemma_text_lt_transitive(a[0], b[0], a[0]);
            }
            lemma_text_lt_irreflexive(a[0]);
        }
        assert(a[0] == b[0]);
        let x = a.skip(1);
        let y = b.skip(1);
        lemma_ascending_distinct(a);
        lemma_ascending_distinct(b);
        assert forall|t: Text| x.to_set().contains(t) == y.to_set().contains(t) by {
            if x.contains(t) {
                let m = x.index_of(t);
                assert(a[m + 1] == t);
                assert(a.to_set().contains(t));
                assert(b.contains(t));
                let n = b.index_of(t);
                assert(n != 0);
                assert(y[n - 1] == t);
            }
            if y.contains(t) {
                let m = y.index_of(t);
                assert(b[m + 1] == t);
                assert(b.to_set().contains(t));
                assert(a.contains(t));
                let n = a.index_of(t);
                assert(n != 0);
                assert(x[n - 1] == t);
            }
        }
        assert(x.to_set() =~= y.to_set());
        lemma_ascending_unique(x, y);
        assert(a =~= seq![a[0]] + x);
        assert(b =~= seq![b[0]] + y);
    }
}

/// The names of a finite set in ascending order.
pub open spec fn walk(names: Set<Text>) -> Seq<Text> {
    choose|s: Seq<Text>| ascending(s) && s.to_set() == names
}

/// A map or set is walked in the one ascending order of its names.
pub proof fn lemma_walk(names: Seq<Text>)
    requires
        ascending(names),
    ensures
        walk(names.to_set()) == names,
{
    let s = walk(names.to_set());
    assert(ascending(names) && names.to_set() == names.to_set());
    lemma_ascending_unique(s, names);
}

/// `name` in its place in an ascending list.
proof fn lemma_place(s: Seq<Text>, name: Text) -> (r: Seq<Text>)
    requires
        ascending(s),
        !s.contains(name),
    ensures
        ascending(r),
        r.to_set() == s.to_set().insert(name),
    decreases s.len(),
{
    if s.len() == 0 {
        let r = seq![name];
        assert(r[0] == name);
        assert(r.to_set() =~= s.to_set().insert(name));
        r
    } else {
        lemma_text_lt_total(name, s[0]);
        assert(s.contains(s[0]));
        if text_lt(name, s[0]) {
            let r = seq![name] + s;
            assert forall|i: int, j: int| 0 <= i < j < r.len() implies text_lt(
                #[trigger] r[i],
                #[trigger] r[j],
            ) by {
                assert(r[j] == s[j - 1]);
                if i > 0 {
                    assert(r[i] == s[i - 1]);
                } else if j > 1 {
                    assert(text_lt(s[0], s[j - 1]));
                    lemma_text_lt_transitive(name, s[0], s[j - 1]);
                }
            }
            assert forall|x: Text| r.to_set().contains(x) == s.to_set().insert(name).contains(x) by {
                if s.contains(x) {
                    let k = s.index_of(x);
                    assert(r[k + 1] == x);
                }
                assert(r[0] == name);
                if r.contains(x) {
                    let k = r.index_of(x);
                    if k > 0 {
                        assert(s[k - 1] == x);
                    }
                }
            }
            assert(r.to_set() =~= s.to_set().insert(name));
            r
        } else {
            let rest = s.skip(1);
            assert(!rest.contains(name)) by {
                if rest.contains(name) {
                    let k = rest.index_of(name);
                    assert(s[k + 1] == name);
                }
            }
            let t = lemma_place(rest, name);
            let r = seq![s[0]] + t;
            assert forall|i: int, j: int| 0 <= i < j < r.len() implies text_lt(
                #[trigger] r[i],
                #[trigger] r[j],
            ) by {
                assert(r[j] == t[j - 1]);
                if i > 0 {
                    assert(r[i] == t[i - 1]);
                } else {
                    assert(t.to_set().contains(t[j - 1]));
                    assert(rest.to_set().insert(name).contains(t[j - 1]));
                    if t[j - 1] != name {
                        let k = rest.index_of(t[j - 1]);
                        assert(s[k + 1] == t[j - 1]);
                        assert(text_lt(s[0], s[k + 1]));
                    }
                }
            }
            assert forall|x: Text| r.to_set().contains(x) == s.to_set().insert(name).contains(x) by {
                assert(t.to_set().contains(x) == rest.to_set().insert(name).contains(x));
                assert(r[0] == s[0]);
                if s.contains(x) {
                    let k = s.index_of(x);
                    if k > 0 {
                        assert(rest[k - 1] == x);
                    }
                }
                if t.contains(x) {
                    let k = t.index_of(x);
                    assert(r[k + 1] == x);
                }
                if r.contains(x) {
                    let k = r.index_of(x);
                    if k > 0 {
                        assert(t[k - 1] == x);
                    }
                }
                if rest.contains(x) {
                    let k = rest.index_of(x);
                    assert(s[k + 1] == x);
                }
            }
            assert(r.to_set() =~= s.to_set().insert(name));
            r
        }
    }
}

proof fn lemma_list(names: Set<Text>) -> (r: Seq<Text>)
    requires
        names.finite(),
    ensures
        ascending(r),
        r.to_set() == names,
    decreases names.len(),
{
    if names.len() == 0 {
        assert(names =~= Set::empty());
        assert(Seq::<Text>::empty().to_set() =~= names);
        Seq::empty()
    } else {
        let x = names.choose();
        let s = lemma_list(names.remove(x));
        assert(!s.contains(x)) by {
            if s.contains(x) {
                assert(s.to_set().contains(x));
            }
        }
        assert(names.remove(x).insert(x) =~= names);
        lemma_place(s, x)
    }
}

/// Every finite set of names has an ascending order.
pub proof fn lemma_walk_finite(names: Set<Text>)
    requires
        names.finite(),
    ensures
        ascending(walk(names)),
        walk(names).to_set() == names,
        walk(names).no_duplicates(),
        walk(names).len() == names.len(),
{
    let s = lemma_list(names);
    assert(ascending(s) && s.to_set() == names);
    lemma_ascending_distinct(walk(names));
    walk(names).unique_seq_to_set();
}

/// A set of names, walked in ascending order.
#[derive(Debug, PartialEq, Eq)]
pub struct NameSet {
    map: NameMap<()>,
}

impl View for NameSet {
    type V = Set<Text>;

    closed spec fn view(&self) -> Set<Text> {
        self.map@.dom()
    }
}

impl NameSet {
    /// The names in the order in which the set is walked.
    pub closed spec fn names(self) -> Seq<Text> {
        self.map.names()
    }

    /// The names ascend, and they are the members.
    pub open spec fn ordered(self) -> bool {
        &&& ascending(self.names())
        &&& self.names().no_duplicates()
        &&& self@ == self.names().to_set()
    }

    pub fn new() -> (r: NameSet)
        ensures
            r@ == Set::<Text>::empty(),
            r.ordered(),
    {
        let map: NameMap<()> = NameMap::new();
        assert(map@.dom() =~= Set::empty());
        NameSet { map }
    }

    pub fn len(&self) -> (n: usize)
        ensures
            n == self.names().len(),
            self.ordered(),
    {
        self.map.len()
    }

    pub fn is_empty(&self) -> (r: bool)
        ensures
            r == (self.names().len() == 0),
            r == (self@ == Set::<Text>::empty()),
            self.ordered(),
    {
        let r = self.map.len() == 0;
        proof {
            if r {
                assert(self.names().to_set() =~= Set::<Text>::empty());
            } else {
                assert(self.names().to_set().contains(self.names()[0]));
            }
        }
        r
    }

    pub fn name_at(&self, i: usize) -> (r: &String)
        requires
            i < self.names().len(),
        ensures
            r@ == self.names()[i as int],
            self@.contains(r@),
    {
        self.map.name_at(i)
    }

    pub fn contains(&self, name: &str) -> (r: bool)
        ensures
            r == self@.contains(name@),
            self.ordered(),
    {
        self.map.contains(name)
    }

    /// Adds a name; the result says whether it is new.
    pub fn insert(&mut self, name: String) -> (r: bool)
        ensures
            final(self)@ == old(self)@.insert(name@),
            final(self).ordered(),
            r == !old(self)@.contains(name@),
    {
        let fresh = !self.map.contains(name.as_str());
        let ghost was = self.map@;
        let ghost k = name@;
        self.map.insert(name, ());
        assert(self.map@.dom() =~= was.dom().insert(k));
        fresh
    }

    pub fn remove(&mut self, name: &str)
        ensures
            final(self)@ == old(self)@.remove(name@),
            final(self).ordered(),
    {
        let ghost was = self.map@;
        let _ = self.map.remove(name);
        assert(self.map@.dom() =~= was.dom().remove(name@));
    }

    /// The names as a list in ascending order.
    pub fn to_list(&self) -> (r: Vec<String>)
        ensures
            crate::text::views(r@) == self.names(),
            self.ordered(),
    {
        let mut out: Vec<String> = Vec::new();
        let mut i: usize = 0;
        let n: usize = self.len();
        assert(self.names().take(0) =~= crate::text::views(out@));
        while i < n
            invariant
                i <= n == self.names().len(),
                self.ordered(),
                crate::text::views(out@) == self.names().take(i as int),
            decreases n - i,
        {
            let ghost prior = out@;
            let name = self.name_at(i).clone();
            out.push(name);
            i = i + 1;
            proof {
                assert(crate::text::views(out@) =~= crate::text::views(prior).push(name@));
                assert(self.names().take(i as int) =~= self.names().take(i - 1).push(
                    self.names()[i - 1],
                ));
            }
        }
        assert(self.names().take(i as int) =~= self.names());
        out
    }
}

impl Clone for NameSet {
    fn clone(&self) -> (r: NameSet)
        ensures
            r@ == self@,
            r.names() == self.names(),
            r.ordered(),
    {
        NameSet { map: self.map.clone() }
    }
}

} // verus!
