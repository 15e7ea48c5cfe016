//! Maps and sets keyed by text. Their keys are kept in ascending order, so that walking one
//! is a function of its contents alone.

use vstd::prelude::*;
use vstd::string::*;

use crate::text;
use crate::text::{str_eq, str_lt};

verus! {

/// Every text comes before all that follow it, so none occurs twice.
pub open spec fn strictly_sorted(s: Seq<Seq<char>>) -> bool {
    forall|i: int, j: int| 0 <= i < j < s.len() ==> text::lex_lt(#[trigger] s[i], #[trigger] s[j])
}

/// `s` holds the texts of `names`, each once, in ascending order.
pub open spec fn lists(s: Seq<Seq<char>>, names: Set<Seq<char>>) -> bool {
    &&& strictly_sorted(s)
    &&& forall|k: Seq<char>| #[trigger] names.contains(k) <==> s.contains(k)
}

/// The texts of a finite set in ascending order.
pub open spec fn ascending(names: Set<Seq<char>>) -> Seq<Seq<char>> {
    choose|s: Seq<Seq<char>>| lists(s, names)
}

proof fn lemma_lists_same_first(s: Seq<Seq<char>>, t: Seq<Seq<char>>, names: Set<Seq<char>>)
    requires
        lists(s, names),
        lists(t, names),
        s.len() > 0,
    ensures
        t.len() > 0,
        s[0] == t[0],
{
    assert(s.contains(s[0]));
    assert(names.contains(s[0]));
    assert(t.contains(s[0]));
    let j = choose|j: int| 0 <= j < t.len() && t[j] == s[0];
    assert(t.contains(t[0]));
    assert(names.contains(t[0]));
    let i = choose|i: int| 0 <= i < s.len() && s[i] == t[0];
    if j > 0 && i > 0 {
        assert(text::lex_lt(t[0], t[j]));
        assert(text::lex_lt(s[0], s[i]));
        text::lemma_lex_asymmetric(s[0], t[0]);
    }
}

proof fn lemma_lists_rest(s: Seq<Seq<char>>, names: Set<Seq<char>>)
    requires
        lists(s, names),
        s.len() > 0,
    ensures
        lists(s.drop_first(), names.remove(s[0])),
{
    let r = s.drop_first();
    assert forall|i: int, j: int| 0 <= i < j < r.len() implies text::lex_lt(#[trigger] r[i], #[trigger] r[j]) by {
        assert(r[i] == s[i + 1] && r[j] == s[j + 1]);
    }
    assert forall|k: Seq<char>| #[trigger] names.remove(s[0]).contains(k) <==> r.contains(k) by {
        if names.remove(s[0]).contains(k) {
            assert(names.contains(k));
            let i = choose|i: int| 0 <= i < s.len() && s[i] == k;
            assert(r[i - 1] == k);
        }
        if r.contains(k) {
            let i = choose|i: int| 0 <= i < r.len() && r[i] == k;
            assert(s[i + 1] == k);
            assert(s.contains(k));
            assert(text::lex_lt(s[0], s[i + 1]));
            text::lemma_lex_irreflexive(k);
        }
    }
}

proof fn lemma_lists_equal(s: Seq<Seq<char>>, t: Seq<Seq<char>>, names: Set<Seq<char>>)
    requires
        lists(s, names),
        lists(t, names),
    ensures
        s == t,
    decreases s.len(),
{
    if s.len() == 0 {
        if t.len() > 0 {
            lemma_lists_same_first(t, s, names);
        }
        assert(s =~= t);
    } else {
        lemma_lists_same_first(s, t, names);
        lemma_lists_rest(s, names);
        lemma_lists_rest(t, names);
        lemma_lists_equal(s.drop_first(), t.drop_first(), names.remove(s[0]));
        assert(s =~= seq![s[0]] + s.drop_first());
        assert(t =~= seq![t[0]] + t.drop_first());
    }
}

/// There is only one way to list a set in ascending order.
pub proof fn lemma_ascending(s: Seq<Seq<char>>, names: Set<Seq<char>>)
    requires
        lists(s, names),
    ensures
        ascending(names) == s,
{
    lemma_lists_equal(ascending(names), s, names);
}

/// An ascending list is as long as the set that it lists is large.
pub proof fn lemma_lists_len(s: Seq<Seq<char>>, names: Set<Seq<char>>)
    requires
        lists(s, names),
    ensures
        names.finite(),
        names.len() == s.len(),
{
    assert(s.no_duplicates()) by {
        assert forall|i: int, j: int| 0 <= i < s.len() && 0 <= j < s.len() && i != j implies s[i] != s[j] by {
            text::lemma_lex_irreflexive(s[i]);
            if i < j {
                assert(text::lex_lt(s[i], s[j]));
            } else {
                assert(text::lex_lt(s[j], s[i]));
            }
        }
    }
    s.unique_seq_to_set();
    assert(s.to_set() =~= names);
}

/// No name is listed twice.
pub proof fn lemma_lists_distinct(s: Seq<Seq<char>>, names: Set<Seq<char>>, i: int, j: int)
    requires
        lists(s, names),
        0 <= i < s.len(),
        0 <= j < s.len(),
        s[i] == s[j],
    ensures
        i == j,
{
    text::lemma_lex_irreflexive(s[i]);
}

/// Adding a name after all the others keeps a list ascending.
pub proof fn lemma_lists_push(s: Seq<Seq<char>>, names: Set<Seq<char>>, k: Seq<char>)
    requires
        lists(s, names),
        forall|i: int| 0 <= i < s.len() ==> text::lex_lt(#[trigger] s[i], k),
    ensures
        lists(s.push(k), names.insert(k)),
{
    let r = s.push(k);
    assert forall|x: Seq<char>| #[trigger] names.insert(k).contains(x) <==> r.contains(x) by {
        if names.contains(x) {
            assert(s.contains(x));
            let i = choose|i: int| 0 <= i < s.len() && s[i] == x;
            assert(r[i] == x);
        }
        if x == k {
            assert(r[s.len() as int] == k);
        }
        if r.contains(x) {
            let i = choose|i: int| 0 <= i < r.len() && r[i] == x;
            if i < s.len() {
                assert(s[i] == x);
                assert(s.contains(x));
            }
        }
    }
}

/// Any name can be worked into an ascending list.
pub proof fn lemma_lists_insert(s: Seq<Seq<char>>, names: Set<Seq<char>>, k: Seq<char>) -> (r: Seq<Seq<char>>)
    requires
        lists(s, names),
    ensures
        lists(r, names.insert(k)),
    decreases s.len(),
{
    if names.contains(k) {
        assert(names.insert(k) =~= names);
        return s;
    }
    if s.len() == 0 {
        lemma_lists_push(s, names, k);
        return s.push(k);
    }
    let l = s.last();
    let f = s.drop_last();
    assert(s.contains(l));
    assert(names.contains(l));
    text::lemma_lex_total(l, k);
    if text::lex_lt(l, k) {
        assert forall|i: int| 0 <= i < s.len() implies text::lex_lt(#[trigger] s[i], k) by {
            if i < s.len() - 1 {
                assert(text::lex_lt(s[i], s[s.len() - 1]));
                text::lemma_lex_transitive(s[i], l, k);
            }
        }
        lemma_lists_push(s, names, k);
        s.push(k)
    } else {
        assert(lists(f, names.remove(l))) by {
            assert forall|x: Seq<char>| #[trigger] names.remove(l).contains(x) <==> f.contains(x) by {
                lemma_push_contains(f, l, x);
                assert(s =~= f.push(l));
                if f.contains(x) {
                    let i = choose|i: int| 0 <= i < f.len() && f[i] == x;
                    assert(text::lex_lt(s[i], s[s.len() - 1]));
                    text::lemma_lex_irreflexive(l);
                    assert(s[i] == x);
                    assert(s.contains(x));
                }
                if names.remove(l).contains(x) {
                    assert(names.contains(x));
                }
            }
            assert forall|i: int, j: int| 0 <= i < j < f.len() implies text::lex_lt(#[trigger] f[i], #[trigger] f[j]) by {
                assert(f[i] == s[i] && f[j] == s[j]);
            }
        }
        let g = lemma_lists_insert(f, names.remove(l), k);
        assert forall|i: int| 0 <= i < g.len() implies text::lex_lt(#[trigger] g[i], l) by {
            assert(g.contains(g[i]));
            assert(names.remove(l).insert(k).contains(g[i]));
            if g[i] != k {
                assert(names.remove(l).contains(g[i]));
                assert(f.contains(g[i]));
                let x = choose|x: int| 0 <= x < f.len() && f[x] == g[i];
                assert(text::lex_lt(s[x], s[s.len() - 1]));
            }
        }
        lemma_lists_push(g, names.remove(l).insert(k), l);
        assert(names.remove(l).insert(k).insert(l) =~= names.insert(k));
        g.push(l)
    }
}

/// Every finite set can be listed in ascending order.
pub proof fn lemma_listed(names: Set<Seq<char>>) -> (s: Seq<Seq<char>>)
    requires
        names.finite(),
    ensures
        lists(s, names),
        ascending(names) == s,
    decreases names.len(),
{
    if names.len() == 0 {
        let s = Seq::<Seq<char>>::empty();
        assert(names =~= Set::<Seq<char>>::empty());
        lemma_ascending(s, names);
        s
    } else {
        let k = names.choose();
        let f = lemma_listed(names.remove(k));
        let s = lemma_lists_insert(f, names.remove(k), k);
        assert(names.remove(k).insert(k) =~= names);
        lemma_ascending(s, names);
        s
    }
}

/// The part of an ascending list that a test picks out is the ascending list of what it
/// picks out.
pub open spec fn picked(s: Seq<Seq<char>>, pick: spec_fn(Seq<char>) -> bool) -> Seq<Seq<char>>
    decreases s.len(),
{
    if s.len() == 0 {
        Seq::empty()
    } else if pick(s.last()) {
        picked(s.drop_last(), pick).push(s.last())
    } else {
        picked(s.drop_last(), pick)
    }
}

/// What is picked from a list are those of its members that the test admits.
pub proof fn lemma_picked_contains(s: Seq<Seq<char>>, pick: spec_fn(Seq<char>) -> bool)
    ensures
        forall|k: Seq<char>| #[trigger] picked(s, pick).contains(k) <==> s.contains(k) && pick(k),
    decreases s.len(),
{
    if s.len() > 0 {
        let f = s.drop_last();
        lemma_picked_contains(f, pick);
        assert forall|k: Seq<char>| #[trigger] picked(s, pick).contains(k) <==> s.contains(k) && pick(k) by {
            assert(s =~= f.push(s.last()));
            assert(f.push(s.last()).contains(k) <==> f.contains(k) || k == s.last()) by {
                lemma_push_contains(f, s.last(), k);
            }
            if pick(s.last()) {
                lemma_push_contains(picked(f, pick), s.last(), k);
            }
            assert(picked(f, pick).contains(k) <==> f.contains(k) && pick(k));
        }
    }
}

/// Membership after adding one element at the end.
pub proof fn lemma_push_contains<A>(s: Seq<A>, x: A, k: A)
    ensures
        s.push(x).contains(k) <==> s.contains(k) || k == x,
{
    if s.contains(k) {
        let i = choose|i: int| 0 <= i < s.len() && s[i] == k;
        assert(s.push(x)[i] == k);
    }
    if k == x {
        assert(s.push(x)[s.len() as int] == k);
    }
    if s.push(x).contains(k) {
        let i = choose|i: int| 0 <= i < s.push(x).len() && s.push(x)[i] == k;
        if i < s.len() {
            assert(s[i] == k);
        }
    }
}

/// What is picked depends on what the choice says alone.
pub proof fn lemma_picked_same(s: Seq<Seq<char>>, a: spec_fn(Seq<char>) -> bool, b: spec_fn(Seq<char>) -> bool)
    requires
        forall|k: Seq<char>| #[trigger] a(k) == b(k),
    ensures
        picked(s, a) == picked(s, b),
    decreases s.len(),
{
    if s.len() > 0 {
        lemma_picked_same(s.drop_last(), a, b);
        assert(a(s.last()) == b(s.last()));
    }
}

/// Picking from an ascending list leaves it ascending.
pub proof fn lemma_picked_sorted(s: Seq<Seq<char>>, pick: spec_fn(Seq<char>) -> bool)
    requires
        strictly_sorted(s),
    ensures
        strictly_sorted(picked(s, pick)),
    decreases s.len(),
{
    if s.len() > 0 {
        let f = s.drop_last();
        assert(strictly_sorted(f)) by {
            assert forall|i: int, j: int| 0 <= i < j < f.len() implies text::lex_lt(#[trigger] f[i], #[trigger] f[j]) by {
                assert(f[i] == s[i] && f[j] == s[j]);
            }
        }
        lemma_picked_sorted(f, pick);
        if pick(s.last()) {
            lemma_picked_contains(f, pick);
            let p = picked(f, pick);
            let r = p.push(s.last());
            assert forall|i: int, j: int| 0 <= i < j < r.len() implies text::lex_lt(#[trigger] r[i], #[trigger] r[j]) by {
                if j == p.len() {
                    assert(p.contains(p[i]));
                    assert(f.contains(p[i]));
                    let k = choose|k: int| 0 <= k < f.len() && f[k] == p[i];
                    assert(s[k] == p[i]);
                    assert(text::lex_lt(s[k], s[s.len() - 1]));
                } else {
                    assert(r[i] == p[i] && r[j] == p[j]);
                }
            }
        }
    }
}

/// Picking from the ascending list of a set gives the ascending list of the part that is
/// picked out.
pub proof fn lemma_picked_ascending(s: Seq<Seq<char>>, names: Set<Seq<char>>, pick: spec_fn(Seq<char>) -> bool)
    requires
        lists(s, names),
    ensures
        picked(s, pick) == ascending(names.filter(pick)),
{
    lemma_picked_sorted(s, pick);
    lemma_picked_contains(s, pick);
    let part = names.filter(pick);
    assert forall|k: Seq<char>| #[trigger] part.contains(k) <==> picked(s, pick).contains(k) by {
        assert(names.contains(k) <==> s.contains(k));
    }
    lemma_ascending(picked(s, pick), part);
}

// ---------------------------------------------------------------------------------------
// Maps
// ---------------------------------------------------------------------------------------
/// A map from text to `V`, its keys in ascending order.
pub struct StrMap<V> {
    entries: Vec<(String, V)>,
}

spec fn keys_of<V>(entries: Seq<(String, V)>) -> Seq<Seq<char>> {
    entries.map_values(|e: (String, V)| e.0@)
}

spec fn map_of<V: View>(entries: Seq<(String, V)>) -> Map<Seq<char>, V::V> {
    Map::new(
        |k: Seq<char>| keys_of(entries).contains(k),
        |k: Seq<char>| entries[keys_of(entries).index_of(k)].1@,
    )
}

proof fn lemma_map_at<V: View>(entries: Seq<(String, V)>, i: int)
    requires
        strictly_sorted(keys_of(entries)),
        0 <= i < entries.len(),
    ensures
        map_of(entries).contains_key(entries[i].0@),
        map_of(entries)[entries[i].0@] == entries[i].1@,
{
    let ks = keys_of(entries);
    let k = entries[i].0@;
    assert(ks[i] == k);
    assert(ks.contains(k));
    let j = ks.index_of(k);
    assert(0 <= j < ks.len() && ks[j] == k);
    text::lemma_lex_irreflexive(k);
    if i < j {
        assert(text::lex_lt(ks[i], ks[j]));
    } else if j < i {
        assert(text::lex_lt(ks[j], ks[i]));
    }
}

impl<V: View> View for StrMap<V> {
    type V = Map<Seq<char>, V::V>;

    closed spec fn view(&self) -> Map<Seq<char>, V::V> {
        map_of(self.entries@)
    }
}

impl<V> StrMap<V> {
    #[verifier::type_invariant]
    spec fn ordered(self) -> bool {
        strictly_sorted(keys_of(self.entries@))
    }
}

impl<V: View> StrMap<V> {
    /// The keys in the order in which the map holds them.
    pub closed spec fn keys(&self) -> Seq<Seq<char>> {
        keys_of(self.entries@)
    }

    /// The empty map.
    pub fn new() -> (r: Self)
        ensures
            r@ == Map::<Seq<char>, V::V>::empty(),
    {
        let r = StrMap { entries: Vec::new() };
        assert(r@ =~= Map::<Seq<char>, V::V>::empty());
        r
    }

    /// The number of keys. The keys are held in ascending order.
    pub fn len(&self) -> (r: usize)
        ensures
            r == self.keys().len(),
            lists(self.keys(), self@.dom()),
            self.keys() == ascending(self@.dom()),
            self@.dom().finite(),
            r == self@.dom().len(),
    {
        proof {
            use_type_invariant(self);
            assert forall|k: Seq<char>| #[trigger] self@.dom().contains(k) <==> self.keys().contains(k) by {}
            lemma_ascending(self.keys(), self@.dom());
            lemma_lists_len(self.keys(), self@.dom());
        }
        self.entries.len()
    }

    /// Whether the map is empty.
    pub fn is_empty(&self) -> (r: bool)
        ensures
            r == (self@ == Map::<Seq<char>, V::V>::empty()),
    {
        let n = self.len();
        proof {
            if n == 0 {
                assert(self@ =~= Map::<Seq<char>, V::V>::empty());
            } else {
                assert(self.keys().contains(self.keys()[0]));
                assert(self@.contains_key(self.keys()[0]));
            }
        }
        n == 0
    }

    /// The key at position `i`.
    pub fn key(&self, i: usize) -> (r: &String)
        requires
            i < self.keys().len(),
        ensures
            r@ == self.keys()[i as int],
            self@.contains_key(r@),
    {
        proof {
            use_type_invariant(self);
            lemma_map_at(self.entries@, i as int);
        }
        &self.entries[i].0
    }

    /// The value at position `i`.
    pub fn value(&self, i: usize) -> (r: &V)
        requires
            i < self.keys().len(),
        ensures
            r@ == self@[self.keys()[i as int]],
            self@.contains_key(self.keys()[i as int]),
    {
        proof {
            use_type_invariant(self);
            lemma_map_at(self.entries@, i as int);
        }
        &self.entries[i].1
    }

    /// The position of `k` where the map has it, else the position where it would stand.
    fn locate(&self, k: &str) -> (r: Result<usize, usize>)
        ensures
            match r {
                Ok(i) => i < self.keys().len() && self.keys()[i as int] == k@,
                Err(i) => {
                    &&& i <= self.keys().len()
                    &&& forall|j: int| 0 <= j < i ==> text::lex_lt(#[trigger] self.keys()[j], k@)
                    &&& forall|j: int| i <= j < self.keys().len() ==> text::lex_lt(k@, #[trigger] self.keys()[j])
                },
            },
    {
        proof {
            use_type_invariant(self);
        }
        let mut lo: usize = 0;
        let mut hi: usize = self.entries.len();
        while lo < hi
            invariant
                lo <= hi <= self.entries@.len(),
                strictly_sorted(self.keys()),
                forall|j: int| 0 <= j < lo ==> text::lex_lt(#[trigger] self.keys()[j], k@),
                forall|j: int| hi <= j < self.keys().len() ==> text::lex_lt(k@, #[trigger] self.keys()[j]),
            decreases hi - lo,
        {
            let mid: usize = lo + (hi - lo) / 2;
            let m = &self.entries[mid].0;
            assert(m@ == self.keys()[mid as int]);
            if str_lt(m.as_str(), k) {
                assert forall|j: int| 0 <= j < mid + 1 implies text::lex_lt(#[trigger] self.keys()[j], k@) by {
                    if j < mid {
                        assert(text::lex_lt(self.keys()[j], self.keys()[mid as int]));
                        text::lemma_lex_transitive(self.keys()[j], m@, k@);
                    }
                }
                lo = mid + 1;
            } else if str_eq(m.as_str(), k) {
                return Ok(mid);
            } else {
                proof {
                    text::lemma_lex_total(m@, k@);
                    assert forall|j: int| mid <= j < self.keys().len() implies text::lex_lt(k@, #[trigger] self.keys()[j]) by {
                        if j > mid {
                            assert(text::lex_lt(self.keys()[mid as int], self.keys()[j]));
                            text::lemma_lex_transitive(k@, m@, self.keys()[j]);
                        }
                    }
                }
                hi = mid;
            }
        }
        Err(lo)
    }

    proof fn lemma_absent(&self, k: Seq<char>, i: int)
        requires
            0 <= i <= self.keys().len(),
            forall|j: int| 0 <= j < i ==> text::lex_lt(#[trigger] self.keys()[j], k),
            forall|j: int| i <= j < self.keys().len() ==> text::lex_lt(k, #[trigger] self.keys()[j]),
        ensures
            !self.keys().contains(k),
            !self@.contains_key(k),
    {
        if self.keys().contains(k) {
            let j = choose|j: int| 0 <= j < self.keys().len() && self.keys()[j] == k;
            text::lemma_lex_irreflexive(k);
        }
    }

    /// The value of `k`, where the map has it.
    pub fn get(&self, k: &str) -> (r: Option<&V>)
        ensures
            match r {
                Some(v) => self@.contains_key(k@) && v@ == self@[k@],
                None => !self@.contains_key(k@),
            },
    {
        match self.locate(k) {
            Ok(i) => {
                proof {
                    use_type_invariant(self);
                    lemma_map_at(self.entries@, i as int);
                }
                Some(&self.entries[i].1)
            },
            Err(i) => {
                proof {
                    self.lemma_absent(k@, i as int);
                }
                None
            },
        }
    }

    /// The position of the key `k`, where the map has it.
    pub fn position(&self, k: &str) -> (r: Option<usize>)
        ensures
            match r {
                Some(i) => i < self.keys().len() && self.keys()[i as int] == k@,
                None => !self@.contains_key(k@),
            },
    {
        match self.locate(k) {
            Ok(i) => Some(i),
            Err(i) => {
                proof {
                    self.lemma_absent(k@, i as int);
                }
                None
            },
        }
    }

    /// Whether the map has the key `k`.
    pub fn contains_key(&self, k: &str) -> (r: bool)
        ensures
            r == self@.contains_key(k@),
    {
        self.get(k).is_some()
    }

    /// Sets the value of `k`.
    pub fn insert(&mut self, k: String, v: V)
        ensures
            final(self)@ == old(self)@.insert(k@, v@),
    {
        let found = self.locate(k.as_str());
        let ghost m = self@;
        let ghost ks = self.keys();
        let ghost kv = k@;
        let ghost vv = v@;
        let ghost es = self.entries@;
        proof {
            use_type_invariant(&*self);
        }
        let mut entries: Vec<(String, V)> = Vec::new();
        std::mem::swap(&mut entries, &mut self.entries);
        match found {
            Ok(i) => {
                entries.set(i, (k, v));
                proof {
                    assert(keys_of(entries@) =~= ks);
                    assert forall|x: Seq<char>| m.insert(kv, vv).contains_key(x) implies #[trigger] map_of(entries@)[x] == m.insert(kv, vv)[x] && map_of(entries@).contains_key(x) by {
                        assert(ks.contains(kv)) by {
                            assert(ks[i as int] == kv);
                        }
                        let j = ks.index_of(x);
                        assert(ks.contains(x));
                        lemma_map_at(entries@, j);
                        lemma_map_at(entries@, i as int);
                        lemma_map_at(es, j);
                    }
                    assert(map_of(entries@) =~= m.insert(kv, vv));
                }
            },
            Err(i) => {
                entries.insert(i, (k, v));
                proof {
                    let ns = keys_of(entries@);
                    assert(ns =~= ks.insert(i as int, kv));
                    assert forall|a: int, b: int| 0 <= a < b < ns.len() implies text::lex_lt(#[trigger] ns[a], #[trigger] ns[b]) by {
                        let a0 = if a < i { a } else { a - 1 };
                        let b0 = if b < i { b } else { b - 1 };
                        if a != i { assert(ns[a] == ks[a0]); }
                        if b != i { assert(ns[b] == ks[b0]); }
                        if a != i && b != i {
                            assert(text::lex_lt(ks[a0], ks[b0]));
                        }
                    }
                    assert forall|x: Seq<char>| #[trigger] ns.contains(x) <==> ks.contains(x) || x == kv by {
                        if ks.contains(x) {
                            let j = choose|j: int| 0 <= j < ks.len() && ks[j] == x;
                            assert(ns[if j < i { j } else { j + 1 }] == x);
                        }
                        if x == kv {
                            assert(ns[i as int] == kv);
                        }
                        if ns.contains(x) {
                            let j = choose|j: int| 0 <= j < ns.len() && ns[j] == x;
                            if j != i {
                                assert(ks[if j < i { j } else { j - 1 }] == x);
                            }
                        }
                    }
                    assert forall|x: Seq<char>| m.insert(kv, vv).contains_key(x) implies #[trigger] map_of(entries@)[x] == m.insert(kv, vv)[x] by {
                        if x == kv {
                            lemma_map_at(entries@, i as int);
                        } else {
                            assert(ks.contains(x));
                            let j = choose|j: int| 0 <= j < ks.len() && ks[j] == x;
                            lemma_map_at(es, j);
                            let j2 = if j < i { j } else { j + 1 };
                            lemma_map_at(entries@, j2);
                            assert(entries@[j2] == es[j]);
                        }
                    }
                    assert(map_of(entries@) =~= m.insert(kv, vv));
                }
            },
        }
        self.entries = entries;
    }

    /// Takes `k` out of the map.
    pub fn remove(&mut self, k: &str)
        ensures
            final(self)@ == old(self)@.remove(k@),
    {
        let found = self.locate(k);
        let ghost m = self@;
        let ghost ks = self.keys();
        let ghost es = self.entries@;
        proof {
            use_type_invariant(&*self);
        }
        match found {
            Ok(i) => {
                let mut entries: Vec<(String, V)> = Vec::new();
                std::mem::swap(&mut entries, &mut self.entries);
                entries.remove(i);
                proof {
                    let ns = keys_of(entries@);
                    assert(ns =~= ks.remove(i as int));
                    assert forall|a: int, b: int| 0 <= a < b < ns.len() implies text::lex_lt(#[trigger] ns[a], #[trigger] ns[b]) by {
                        let a0 = if a < i { a } else { a + 1 };
                        let b0 = if b < i { b } else { b + 1 };
                        assert(ns[a] == ks[a0] && ns[b] == ks[b0]);
                        assert(text::lex_lt(ks[a0], ks[b0]));
                    }
                    assert forall|x: Seq<char>| #[trigger] ns.contains(x) <==> ks.contains(x) && x != k@ by {
                        if ks.contains(x) && x != k@ {
                            let j = choose|j: int| 0 <= j < ks.len() && ks[j] == x;
                            assert(ns[if j < i { j } else { j - 1 }] == x);
                        }
                        if ns.contains(x) {
                            let j = choose|j: int| 0 <= j < ns.len() && ns[j] == x;
                            let j0 = if j < i { j } else { j + 1 };
                            assert(ks[j0] == x);
                            text::lemma_lex_irreflexive(x);
                            if j0 < i {
                                assert(text::lex_lt(ks[j0], ks[i as int]));
                            } else {
                                assert(text::lex_lt(ks[i as int], ks[j0]));
                            }
                        }
                    }
                    assert forall|x: Seq<char>| m.remove(k@).contains_key(x) implies #[trigger] map_of(entries@)[x] == m[x] by {
                        assert(ks.contains(x));
                        let j = choose|j: int| 0 <= j < ks.len() && ks[j] == x;
                        lemma_map_at(es, j);
                        let j2 = if j < i { j } else { j - 1 };
                        lemma_map_at(entries@, j2);
                        assert(entries@[j2] == es[j]);
                    }
                    assert(map_of(entries@) =~= m.remove(k@));
                }
                self.entries = entries;
            },
            Err(i) => {
                proof {
                    self.lemma_absent(k@, i as int);
                    assert(m.remove(k@) =~= m);
                }
            },
        }
    }
}

// ---------------------------------------------------------------------------------------
// Sets
// ---------------------------------------------------------------------------------------
/// A set of texts in ascending order.
pub struct StrSet {
    members: StrMap<bool>,
}

impl View for StrSet {
    type V = Set<Seq<char>>;

    closed spec fn view(&self) -> Set<Seq<char>> {
        self.members@.dom()
    }
}

impl StrSet {
    /// The members in the order in which the set holds them.
    pub closed spec fn items(&self) -> Seq<Seq<char>> {
        self.members.keys()
    }

    /// The empty set.
    pub fn new() -> (r: Self)
        ensures
            r@ == Set::<Seq<char>>::empty(),
    {
        let r = StrSet { members: StrMap::new() };
        assert(r@ =~= Set::<Seq<char>>::empty());
        r
    }

    /// The number of members. They are held in ascending order.
    pub fn len(&self) -> (r: usize)
        ensures
            r == self.items().len(),
            lists(self.items(), self@),
            self.items() == ascending(self@),
            self@.finite(),
            r == self@.len(),
    {
        self.members.len()
    }

    /// The position of `k`, where it is a member.
    pub fn position(&self, k: &str) -> (r: Option<usize>)
        ensures
            match r {
                Some(i) => i < self.items().len() && self.items()[i as int] == k@,
                None => !self@.contains(k@),
            },
    {
        self.members.position(k)
    }

    /// Whether the set is empty.
    pub fn is_empty(&self) -> (r: bool)
        ensures
            r == (self@ == Set::<Seq<char>>::empty()),
    {
        let n = self.len();
        proof {
            if n == 0 {
                assert(self@ =~= Set::<Seq<char>>::empty());
            } else {
                assert(self.items().contains(self.items()[0]));
                assert(self@.contains(self.items()[0]));
            }
        }
        n == 0
    }

    /// The member at position `i`.
    pub fn item(&self, i: usize) -> (r: &String)
        requires
            i < self.items().len(),
        ensures
            r@ == self.items()[i as int],
            self@.contains(r@),
    {
        self.members.key(i)
    }

    /// Whether `k` is a member.
    pub fn contains(&self, k: &str) -> (r: bool)
        ensures
            r == self@.contains(k@),
    {
        self.members.contains_key(k)
    }

    /// Makes `k` a member.
    pub fn insert(&mut self, k: String)
        ensures
            final(self)@ == old(self)@.insert(k@),
    {
        self.members.insert(k, true);
        assert(self@ =~= old(self)@.insert(k@));
    }

    /// Takes `k` out of the set.
    pub fn remove(&mut self, k: &str)
        ensures
            final(self)@ == old(self)@.remove(k@),
    {
        self.members.remove(k);
        assert(self@ =~= old(self)@.remove(k@));
    }
}

/// A finite set of texts is listed in ascending order: each of its members is listed once, nothing
/// else is, and of two members the lesser comes first.
pub proof fn law_ascending_lists_each_member(names: Set<Seq<char>>, x: Seq<char>)
    requires
        names.finite(),
    ensures
        ascending(names).contains(x) <==> names.contains(x),
        ascending(names).len() == names.len(),
        ascending(names).no_duplicates(),
        forall|i: int, j: int|
            0 <= i < j < ascending(names).len() ==> text::lex_lt(#[trigger] ascending(names)[i], #[trigger] ascending(names)[j]),
{
    let s = lemma_listed(names);
    lemma_lists_len(s, names);
    assert(names.contains(x) <==> s.contains(x));
    assert forall|i: int, j: int| 0 <= i < s.len() && 0 <= j < s.len() && i != j implies s[i] != s[j] by {
        if s[i] == s[j] {
            lemma_lists_distinct(s, names, i, j);
        }
    }
}

/// Picking keeps the items for which the test holds, in their order, and no other.
pub proof fn law_picking_is_filtering(s: Seq<Seq<char>>, pick: spec_fn(Seq<char>) -> bool)
    ensures
        picked(s, pick) == s.filter(pick),
    decreases s.len(),
{
    reveal(Seq::filter);
    if s.len() > 0 {
        law_picking_is_filtering(s.drop_last(), pick);
    }
}

} // verus!
