use vstd::prelude::*;

use crate::text::{lemma_seq_lt_irreflexive, lemma_seq_lt_total, lemma_seq_lt_transitive, seq_lt, str_eq, str_lt};

verus! {

/// The character views of a sequence of strings.
pub open spec fn string_views(v: Seq<String>) -> Seq<Seq<char>> {
    v.map_values(|s: String| s@)
}

/// Every element sorts strictly before every later element.
pub open spec fn strictly_sorted(s: Seq<Seq<char>>) -> bool {
    forall|i: int, j: int| 0 <= i < j < s.len() ==> seq_lt(#[trigger] s[i], #[trigger] s[j])
}

pub proof fn lemma_strictly_sorted_no_duplicates(s: Seq<Seq<char>>)
    requires
        strictly_sorted(s),
    ensures
        s.no_duplicates(),
{
    assert forall|i: int, j: int| 0 <= i < s.len() && 0 <= j < s.len() && i != j implies s[i]
        != s[j] by {
        if i < j {
            lemma_seq_lt_irreflexive(s[i]);
        } else {
            lemma_seq_lt_irreflexive(s[j]);
        }
    }
}

/// The texts of a finite set in ascending order.
pub open spec fn sorted_of(s: Set<Seq<char>>) -> Seq<Seq<char>> {
    choose|t: Seq<Seq<char>>| strictly_sorted(t) && t.to_set() == s
}

/// Two strictly sorted sequences with the same elements are the same.
pub proof fn lemma_strictly_sorted_unique(a: Seq<Seq<char>>, b: Seq<Seq<char>>)
    requires
        strictly_sorted(a),
        strictly_sorted(b),
        a.to_set() == b.to_set(),
    ensures
        a == b,
    decreases a.len(),
{
    if a.len() == 0 {
        if b.len() > 0 {
            assert(b.to_set().contains(b[0]));
        }
        assert(a =~= b);
    } else if b.len() == 0 {
        assert(a.to_set().contains(a[0]));
    } else {
        assert(a.to_set().contains(a[0]));
        assert(b.to_set().contains(b[0]));
        if a[0] != b[0] {
            let j = choose|j: int| 0 <= j < b.len() && b[j] == a[0];
            let k = choose|k: int| 0 <= k < a.len() && a[k] == b[0];
            assert(seq_lt(b[0], b[j]));
            assert(seq_lt(a[0], a[k]));
            lemma_seq_lt_transitive(a[0], b[0], a[0]);
            lemma_seq_lt_irreflexive(a[0]);
        }
        let a1 = a.drop_first();
        let b1 = b.drop_first();
        assert forall|x: Seq<char>| a1.to_set().contains(x) implies b1.to_set().contains(x) by {
            let i = choose|i: int| 0 <= i < a1.len() && a1[i] == x;
            assert(a[i + 1] == x);
            assert(seq_lt(a[0], a[i + 1]));
            lemma_seq_lt_irreflexive(x);
            assert(b.to_set().contains(x));
            let j = choose|j: int| 0 <= j < b.len() && b[j] == x;
            assert(j != 0);
            assert(b1[j - 1] == x);
        }
        assert forall|x: Seq<char>| b1.to_set().contains(x) implies a1.to_set().contains(x) by {
            let i = choose|i: int| 0 <= i < b1.len() && b1[i] == x;
            assert(b[i + 1] == x);
            assert(seq_lt(b[0], b[i + 1]));
            lemma_seq_lt_irreflexive(x);
            assert(a.to_set().contains(x));
            let j = choose|j: int| 0 <= j < a.len() && a[j] == x;
            assert(j != 0);
            assert(a1[j - 1] == x);
        }
        assert(a1.to_set() =~= b1.to_set());
        lemma_strictly_sorted_unique(a1, b1);
        assert(a =~= b) by {
            assert forall|i: int| 0 <= i < a.len() implies a[i] == b[i] by {
                if i > 0 {
                    assert(a[i] == a1[i - 1]);
                    assert(b[i] == b1[i - 1]);
                }
            }
        }
    }
}

/// A strictly sorted sequence is the ascending order of its elements.
pub proof fn lemma_sorted_of(t: Seq<Seq<char>>)
    requires
        strictly_sorted(t),
    ensures
        sorted_of(t.to_set()) == t,
{
    let s = t.to_set();
    assert(strictly_sorted(t) && t.to_set() == s);
    let u = sorted_of(s);
    lemma_strictly_sorted_unique(u, t);
}

/// Where `x` belongs in the strictly sorted `s`: the number of elements
/// before it, and whether it is already present there.
pub fn sorted_position(s: &Vec<String>, x: &str) -> (r: (usize, bool))
    requires
        strictly_sorted(string_views(s@)),
    ensures
        r.0 <= s@.len(),
        forall|i: int| 0 <= i < r.0 ==> seq_lt(#[trigger] s@[i]@, x@),
        r.1 ==> r.0 < s@.len() && s@[r.0 as int]@ == x@,
        !r.1 ==> forall|j: int| r.0 <= j < s@.len() ==> seq_lt(x@, #[trigger] s@[j]@),
{
    let mut i: usize = 0;
    while i < s.len()
        invariant
            i <= s@.len(),
            strictly_sorted(string_views(s@)),
            forall|k: int| 0 <= k < i ==> seq_lt(#[trigger] s@[k]@, x@),
        decreases s@.len() - i,
    {
        if !str_lt(s[i].as_str(), x) {
            let same = str_eq(s[i].as_str(), x);
            if !same {
                proof {
                    lemma_seq_lt_total(s@[i as int]@, x@);
                    assert forall|j: int| i <= j < s@.len() implies seq_lt(x@, #[trigger] s@[j]@) by {
                        if j > i {
                            assert(string_views(s@)[i as int] == s@[i as int]@);
                            assert(string_views(s@)[j] == s@[j]@);
                            lemma_seq_lt_transitive(x@, s@[i as int]@, s@[j]@);
                        }
                    }
                }
            }
            return (i, same);
        }
        i = i + 1;
    }
    (i, false)
}

/// A set of strings kept in ascending order, as `BTreeSet<String>` keeps it.
#[derive(Debug, PartialEq, Eq)]
pub struct StringSet {
    items: Vec<String>,
}

impl StringSet {
    #[verifier::type_invariant]
    spec fn sorted(self) -> bool {
        strictly_sorted(string_views(self.items@))
    }

    /// The elements in ascending order.
    pub closed spec fn elements(self) -> Seq<Seq<char>> {
        string_views(self.items@)
    }
}

impl View for StringSet {
    type V = Set<Seq<char>>;

    closed spec fn view(&self) -> Set<Seq<char>> {
        string_views(self.items@).to_set()
    }
}

impl StringSet {
    pub fn new() -> (s: Self)
        ensures
            s@ == Set::<Seq<char>>::empty(),
            s.elements() == Seq::<Seq<char>>::empty(),
    {
        let s = StringSet { items: Vec::new() };
        assert(string_views(s.items@).to_set() =~= Set::<Seq<char>>::empty());
        s
    }

    /// Adds a value; a value already present leaves the set unchanged.
    pub fn insert(&mut self, value: String)
        ensures
            final(self)@ == old(self)@.insert(value@),
    {
        proof {
            use_type_invariant(&*self);
        }
        let (p, present) = sorted_position(&self.items, value.as_str());
        if present {
            proof {
                assert(string_views(self.items@)[p as int] == value@);
                assert(string_views(self.items@).to_set().insert(value@) =~= string_views(
                    self.items@,
                ).to_set());
            }
            return ;
        }
        let ghost old_items = self.items@;
        let mut items: Vec<String> = Vec::new();
        std::mem::swap(&mut items, &mut self.items);
        items.insert(p, value);
        proof {
            let v = string_views(items@);
            let o = string_views(old_items);
            assert(v =~= o.take(p as int).push(value@) + o.skip(p as int));
            assert forall|i: int, j: int| 0 <= i < j < v.len() implies seq_lt(
                #[trigger] v[i],
                #[trigger] v[j],
            ) by {
                if j < p {
                } else if j == p {
                    assert(v[i] == o[i]);
                } else if i == p {
                    assert(v[j] == o[j - 1]);
                } else if i < p {
                    assert(v[i] == o[i]);
                    assert(v[j] == o[j - 1]);
                    lemma_seq_lt_transitive(o[i], value@, o[j - 1]);
                } else {
                    assert(v[i] == o[i - 1]);
                    assert(v[j] == o[j - 1]);
                }
            }
            assert(v.to_set() =~= o.to_set().insert(value@)) by {
                assert forall|x: Seq<char>| v.contains(x) implies o.contains(x) || x == value@ by {
                    let k = choose|k: int| 0 <= k < v.len() && v[k] == x;
                    if k < p {
                        assert(o[k] == x);
                    } else if k > p {
                        assert(o[k - 1] == x);
                    }
                }
                assert forall|x: Seq<char>| o.contains(x) implies v.contains(x) by {
                    let k = choose|k: int| 0 <= k < o.len() && o[k] == x;
                    if k < p {
                        assert(v[k] == x);
                    } else {
                        assert(v[k + 1] == x);
                    }
                }
                assert(v[p as int] == value@);
            }
        }
        self.items = items;
    }

    /// Whether the set holds `value`.
    pub fn contains(&self, value: &str) -> (r: bool)
        ensures
            r == self@.contains(value@),
    {
        proof {
            use_type_invariant(self);
        }
        let (p, present) = sorted_position(&self.items, value);
        proof {
            if !present {
                assert forall|j: int| 0 <= j < self.items@.len() implies string_views(
                    self.items@,
                )[j] != value@ by {
                    assert(string_views(self.items@)[j] == self.items@[j]@);
                    if j < p {
                        lemma_seq_lt_irreflexive(value@);
                    } else {
                        lemma_seq_lt_irreflexive(value@);
                    }
                }
            } else {
                assert(string_views(self.items@)[p as int] == value@);
            }
        }
        present
    }

    pub fn len(&self) -> (n: usize)
        ensures
            n == self@.len(),
    {
        proof {
            use_type_invariant(self);
            lemma_strictly_sorted_no_duplicates(string_views(self.items@));
            string_views(self.items@).unique_seq_to_set();
        }
        self.items.len()
    }

    /// A copy of the set.
    pub fn duplicate(&self) -> (r: Self)
        ensures
            r@ == self@,
            r.elements() == self.elements(),
    {
        proof {
            use_type_invariant(self);
        }
        let mut items: Vec<String> = Vec::new();
        let mut i: usize = 0;
        while i < self.items.len()
            invariant
                i <= self.items@.len(),
                string_views(items@) == string_views(self.items@).take(i as int),
            decreases self.items@.len() - i,
        {
            let c = self.items[i].clone();
            assert(c@ == self.items@[i as int]@);
            let ghost before = items@;
            items.push(c);
            assert(items@ == before.push(c));
            assert(string_views(before.push(c)) =~= string_views(before).push(c@));
            assert(string_views(self.items@).take(i + 1) =~= string_views(self.items@).take(
                i as int,
            ).push(string_views(self.items@)[i as int]));
            i = i + 1;
        }
        assert(string_views(self.items@).take(self.items@.len() as int) =~= string_views(self.items@));
        StringSet { items }
    }

    pub fn is_empty(&self) -> (r: bool)
        ensures
            r == (self@.len() == 0),
    {
        self.len() == 0
    }

    /// The elements in ascending order.
    pub fn as_slice(&self) -> (r: &[String])
        ensures
            string_views(r@) == self.elements(),
            string_views(r@).to_set() == self@,
            strictly_sorted(string_views(r@)),
            string_views(r@).no_duplicates(),
    {
        proof {
            use_type_invariant(self);
            lemma_strictly_sorted_no_duplicates(string_views(self.items@));
        }
        self.items.as_slice()
    }
}

/// The key views of a sequence of map entries.
pub open spec fn key_views<V>(s: Seq<(String, V)>) -> Seq<Seq<char>> {
    s.map_values(|e: (String, V)| e.0@)
}

pub proof fn lemma_index_of_unique(s: Seq<Seq<char>>, i: int)
    requires
        s.no_duplicates(),
        0 <= i < s.len(),
    ensures
        s.index_of(s[i]) == i,
{
    assert(s.contains(s[i]));
}

/// Where key `x` belongs among the strictly sorted keys of `s`.
pub fn entry_position<V>(s: &Vec<(String, V)>, x: &str) -> (r: (usize, bool))
    requires
        strictly_sorted(key_views(s@)),
    ensures
        r.0 <= s@.len(),
        forall|i: int| 0 <= i < r.0 ==> seq_lt(#[trigger] s@[i].0@, x@),
        r.1 ==> r.0 < s@.len() && s@[r.0 as int].0@ == x@,
        !r.1 ==> forall|j: int| r.0 <= j < s@.len() ==> seq_lt(x@, #[trigger] s@[j].0@),
{
    let mut i: usize = 0;
    while i < s.len()
        invariant
            i <= s@.len(),
            strictly_sorted(key_views(s@)),
            forall|k: int| 0 <= k < i ==> seq_lt(#[trigger] s@[k].0@, x@),
        decreases s@.len() - i,
    {
        if !str_lt(s[i].0.as_str(), x) {
            let same = str_eq(s[i].0.as_str(), x);
            if !same {
                proof {
                    lemma_seq_lt_total(s@[i as int].0@, x@);
                    assert forall|j: int| i <= j < s@.len() implies seq_lt(
                        x@,
                        #[trigger] s@[j].0@,
                    ) by {
                        if j > i {
                            assert(key_views(s@)[i as int] == s@[i as int].0@);
                            assert(key_views(s@)[j] == s@[j].0@);
                            lemma_seq_lt_transitive(x@, s@[i as int].0@, s@[j].0@);
                        }
                    }
                }
            }
            return (i, same);
        }
        i = i + 1;
    }
    (i, false)
}

/// A map from strings to values kept in ascending key order, as
/// `BTreeMap<String, _>` keeps it.
#[derive(Debug, PartialEq, Eq)]
pub struct StringMap<V> {
    entries: Vec<(String, V)>,
}

impl<V> StringMap<V> {
    #[verifier::type_invariant]
    spec fn sorted(self) -> bool {
        strictly_sorted(key_views(self.entries@))
    }

    /// The keys in ascending order.
    pub closed spec fn keys_in_order(self) -> Seq<Seq<char>> {
        key_views(self.entries@)
    }
}

/// The map that a sequence of entries with distinct keys describes.
pub open spec fn map_of_entries<V: View>(s: Seq<(String, V)>) -> Map<Seq<char>, V::V> {
    Map::new(
        |k: Seq<char>| key_views(s).contains(k),
        |k: Seq<char>| s[key_views(s).index_of(k)].1@,
    )
}

impl<V: View> View for StringMap<V> {
    type V = Map<Seq<char>, V::V>;

    closed spec fn view(&self) -> Map<Seq<char>, V::V> {
        map_of_entries(self.entries@)
    }
}

pub proof fn lemma_map_of_entries_at<V: View>(s: Seq<(String, V)>, i: int)
    requires
        key_views(s).no_duplicates(),
        0 <= i < s.len(),
    ensures
        map_of_entries(s).contains_key(s[i].0@),
        map_of_entries(s)[s[i].0@] == s[i].1@,
{
    assert(key_views(s)[i] == s[i].0@);
    lemma_index_of_unique(key_views(s), i);
}

impl<V: View> StringMap<V> {
    pub fn new() -> (m: Self)
        ensures
            m@ == Map::<Seq<char>, V::V>::empty(),
    {
        let m = StringMap { entries: Vec::new() };
        assert(map_of_entries(m.entries@) =~= Map::<Seq<char>, V::V>::empty());
        m
    }

    /// Adds or replaces the value for `key`.
    pub fn insert(&mut self, key: String, value: V)
        ensures
            final(self)@ == old(self)@.insert(key@, value@),
    {
        proof {
            use_type_invariant(&*self);
            lemma_strictly_sorted_no_duplicates(key_views(self.entries@));
        }
        let ghost old_entries = self.entries@;
        let ghost kv = key@;
        let ghost vv = value@;
        let (p, present) = entry_position(&self.entries, key.as_str());
        let mut entries: Vec<(String, V)> = Vec::new();
        std::mem::swap(&mut entries, &mut self.entries);
        if present {
            entries.set(p, (key, value));
            proof {
                let o = key_views(old_entries);
                let n = key_views(entries@);
                assert(n =~= o);
                assert(map_of_entries(entries@) =~= map_of_entries(old_entries).insert(kv, vv)) by {
                    assert forall|k: Seq<char>| #[trigger] n.contains(k) implies map_of_entries(
                        entries@,
                    )[k] == map_of_entries(old_entries).insert(kv, vv)[k] by {
                        let j = choose|j: int| 0 <= j < n.len() && n[j] == k;
                        lemma_map_of_entries_at(entries@, j);
                        if j != p {
                            assert(entries@[j] == old_entries[j]);
                            lemma_map_of_entries_at(old_entries, j);
                            assert(o[j] != o[p as int]);
                            assert(k != kv);
                        } else {
                            assert(entries@[j].1@ == vv);
                            assert(k == kv);
                        }
                    }
                    assert(o[p as int] == kv);
                }
            }
        } else {
            entries.insert(p, (key, value));
            proof {
                let o = key_views(old_entries);
                let n = key_views(entries@);
                assert(n =~= o.take(p as int).push(kv) + o.skip(p as int));
                assert forall|i: int, j: int| 0 <= i < j < n.len() implies seq_lt(
                    #[trigger] n[i],
                    #[trigger] n[j],
                ) by {
                    if j < p {
                    } else if j == p {
                        assert(n[i] == o[i]);
                        assert(n[i] == old_entries[i].0@);
                    } else if i == p {
                        assert(n[j] == o[j - 1]);
                        assert(n[j] == old_entries[j - 1].0@);
                    } else if i < p {
                        assert(n[i] == old_entries[i].0@);
                        assert(n[j] == old_entries[j - 1].0@);
                        lemma_seq_lt_transitive(o[i], kv, o[j - 1]);
                    } else {
                        assert(n[i] == o[i - 1]);
                        assert(n[j] == o[j - 1]);
                    }
                }
                lemma_strictly_sorted_no_duplicates(n);
                assert(map_of_entries(entries@) =~= map_of_entries(old_entries).insert(kv, vv)) by {
                    assert forall|k: Seq<char>| n.contains(k) <==> (o.contains(k) || k == kv) by {
                        if n.contains(k) {
                            let m = choose|m: int| 0 <= m < n.len() && n[m] == k;
                            if m < p {
                                assert(o[m] == k);
                            } else if m > p {
                                assert(o[m - 1] == k);
                            }
                        }
                        if o.contains(k) {
                            let m = choose|m: int| 0 <= m < o.len() && o[m] == k;
                            if m < p {
                                assert(n[m] == k);
                            } else {
                                assert(n[m + 1] == k);
                            }
                        }
                        if k == kv {
                            assert(n[p as int] == kv);
                        }
                    }
                    assert forall|k: Seq<char>| #[trigger] n.contains(k) implies map_of_entries(
                        entries@,
                    )[k] == map_of_entries(old_entries).insert(kv, vv)[k] by {
                        let m = choose|m: int| 0 <= m < n.len() && n[m] == k;
                        lemma_map_of_entries_at(entries@, m);
                        if m < p {
                            lemma_map_of_entries_at(old_entries, m);
                            assert(old_entries[m] == entries@[m]);
                            assert(seq_lt(old_entries[m].0@, kv));
                            lemma_seq_lt_irreflexive(kv);
                            assert(k != kv);
                        } else if m > p {
                            lemma_map_of_entries_at(old_entries, m - 1);
                            assert(old_entries[m - 1] == entries@[m]);
                            assert(n[m] == o[m - 1]);
                            assert(seq_lt(kv, old_entries[m - 1].0@));
                            lemma_seq_lt_irreflexive(kv);
                            assert(k != kv);
                        } else {
                            assert(entries@[m].1@ == vv);
                            assert(!o.contains(kv)) by {
                                if o.contains(kv) {
                                    let q = choose|q: int| 0 <= q < o.len() && o[q] == kv;
                                    if q < p {
                                        assert(seq_lt(old_entries[q].0@, kv));
                                    } else {
                                        assert(seq_lt(kv, old_entries[q].0@));
                                    }
                                    lemma_seq_lt_irreflexive(kv);
                                }
                            }
                        }
                    }
                }
            }
        }
        self.entries = entries;
    }

    /// The value stored for `key`, if any.
    pub fn get(&self, key: &str) -> (r: Option<&V>)
        ensures
            match r {
                Some(v) => self@.contains_key(key@) && v@ == self@[key@],
                None => !self@.contains_key(key@),
            },
    {
        proof {
            use_type_invariant(self);
            lemma_strictly_sorted_no_duplicates(key_views(self.entries@));
        }
        let (p, present) = entry_position(&self.entries, key);
        if present {
            proof {
                lemma_map_of_entries_at(self.entries@, p as int);
            }
            Some(&self.entries[p].1)
        } else {
            proof {
                assert forall|j: int| 0 <= j < self.entries@.len() implies key_views(
                    self.entries@,
                )[j] != key@ by {
                    assert(key_views(self.entries@)[j] == self.entries@[j].0@);
                    lemma_seq_lt_irreflexive(key@);
                }
            }
            None
        }
    }

    /// Whether `key` has a value.
    pub fn contains_key(&self, key: &str) -> (r: bool)
        ensures
            r == self@.contains_key(key@),
    {
        self.get(key).is_some()
    }

    pub fn len(&self) -> (n: usize)
        ensures
            n == self@.len(),
    {
        proof {
            use_type_invariant(self);
            lemma_strictly_sorted_no_duplicates(key_views(self.entries@));
            key_views(self.entries@).unique_seq_to_set();
            assert(self@.dom() =~= key_views(self.entries@).to_set());
        }
        self.entries.len()
    }

    pub fn is_empty(&self) -> (r: bool)
        ensures
            r == (self@.len() == 0),
    {
        self.len() == 0
    }

    /// The entries in ascending key order.
    pub fn as_slice(&self) -> (r: &[(String, V)])
        ensures
            key_views(r@) == self.keys_in_order(),
            strictly_sorted(key_views(r@)),
            key_views(r@).no_duplicates(),
            map_of_entries(r@) == self@,
            forall|i: int|
                0 <= i < r@.len() ==> self@.contains_key(#[trigger] r@[i].0@) && self@[r@[i].0@]
                    == r@[i].1@,
            forall|k: Seq<char>| #[trigger] self@.contains_key(k) ==> key_views(r@).contains(k),
    {
        proof {
            use_type_invariant(self);
            lemma_strictly_sorted_no_duplicates(key_views(self.entries@));
            assert forall|i: int| 0 <= i < self.entries@.len() implies self@.contains_key(
                #[trigger] self.entries@[i].0@,
            ) && self@[self.entries@[i].0@] == self.entries@[i].1@ by {
                lemma_map_of_entries_at(self.entries@, i);
            }
        }
        self.entries.as_slice()
    }
}

impl StringMap<String> {
    /// A copy of the map.
    pub fn duplicate(&self) -> (r: Self)
        ensures
            r@ == self@,
    {
        proof {
            use_type_invariant(self);
        }
        let mut entries: Vec<(String, String)> = Vec::new();
        let mut i: usize = 0;
        while i < self.entries.len()
            invariant
                i <= self.entries@.len(),
                entries@.len() == i,
                forall|j: int|
                    0 <= j < i ==> (#[trigger] entries@[j]).0@ == self.entries@[j].0@
                        && entries@[j].1@ == self.entries@[j].1@,
            decreases self.entries@.len() - i,
        {
            let k = self.entries[i].0.clone();
            let v = self.entries[i].1.clone();
            entries.push((k, v));
            i = i + 1;
        }
        assert(key_views(entries@) =~= key_views(self.entries@));
        let r = StringMap { entries };
        assert(map_of_entries(r.entries@) =~= map_of_entries(self.entries@)) by {
            assert forall|k: Seq<char>| #[trigger] key_views(r.entries@).contains(k) implies r.entries@[
                key_views(r.entries@).index_of(k)].1@ == self.entries@[key_views(
                self.entries@,
            ).index_of(k)].1@ by {}
        }
        r
    }
}

} // verus!
