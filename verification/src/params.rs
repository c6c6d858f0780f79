//! String-keyed mappings: request bodies, query parameters, path parameters
//! and cookies.
//!
//! A `Params` keeps its entries in the order in which their keys first came,
//! one entry per key. Its view is the mapping from key to value.

use vstd::prelude::*;
use crate::text::same_text;

verus! {

/// A sequence of key-value pairs, as characters.
pub type Pairs = Seq<(Seq<char>, Seq<char>)>;

/// The mapping that a sequence of pairs amounts to when each pair is written
/// in turn: of two pairs with one key the later one counts.
pub open spec fn assoc_map(ps: Pairs) -> Map<Seq<char>, Seq<char>>
    decreases ps.len(),
{
    if ps.len() == 0 {
        Map::empty()
    } else {
        assoc_map(ps.drop_last()).insert(ps.last().0, ps.last().1)
    }
}

/// No key stands twice in `ps`.
pub open spec fn distinct_keys(ps: Pairs) -> bool {
    forall|i: int, j: int| 0 <= i < j < ps.len() ==> ps[i].0 != ps[j].0
}

/// The least index at or after `from` whose key is `key`, or `ps.len()`.
pub open spec fn key_index(ps: Pairs, key: Seq<char>, from: int) -> int
    decreases ps.len() - from,
{
    if from < 0 || from >= ps.len() {
        ps.len() as int
    } else if ps[from].0 == key {
        from
    } else {
        key_index(ps, key, from + 1)
    }
}

/// `ps` after writing `value` under `key`: in place where the key is there,
/// at the end where it is new.
pub open spec fn put(ps: Pairs, key: Seq<char>, value: Seq<char>) -> Pairs {
    let i = key_index(ps, key, 0);
    if i < ps.len() {
        ps.update(i, (key, value))
    } else {
        ps.push((key, value))
    }
}

/// `key_index` stays within the pairs; short of the end it names an entry with
/// the key, and no entry before it has the key.
pub proof fn lemma_key_index(ps: Pairs, key: Seq<char>, from: int)
    requires
        0 <= from <= ps.len(),
    ensures
        from <= key_index(ps, key, from) <= ps.len(),
        key_index(ps, key, from) < ps.len() ==> ps[key_index(ps, key, from)].0 == key,
        forall|j: int| from <= j < key_index(ps, key, from) ==> ps[j].0 != key,
    decreases ps.len() - from,
{
    if from < ps.len() && ps[from].0 != key {
        lemma_key_index(ps, key, from + 1);
    }
}

/// A key is in the mapping exactly when some pair has it.
pub proof fn lemma_assoc_dom(ps: Pairs, key: Seq<char>)
    ensures
        assoc_map(ps).contains_key(key) <==> exists|i: int| 0 <= i < ps.len() && ps[i].0 == key,
    decreases ps.len(),
{
    if ps.len() > 0 {
        let dl = ps.drop_last();
        lemma_assoc_dom(dl, key);
        if assoc_map(ps).contains_key(key) {
            if ps.last().0 == key {
                assert(ps[ps.len() - 1].0 == key);
            } else {
                let i = choose|i: int| 0 <= i < dl.len() && dl[i].0 == key;
                assert(ps[i].0 == key);
            }
        }
        if exists|i: int| 0 <= i < ps.len() && ps[i].0 == key {
            let i = choose|i: int| 0 <= i < ps.len() && ps[i].0 == key;
            if i < ps.len() - 1 {
                assert(dl[i].0 == key);
            }
        }
    }
}

/// Where no key stands twice, each pair's key is mapped to that pair's value.
pub proof fn lemma_assoc_at(ps: Pairs, i: int)
    requires
        distinct_keys(ps),
        0 <= i < ps.len(),
    ensures
        assoc_map(ps).contains_key(ps[i].0),
        assoc_map(ps)[ps[i].0] == ps[i].1,
    decreases ps.len(),
{
    if i < ps.len() - 1 {
        let dl = ps.drop_last();
        assert(dl[i] == ps[i]);
        assert(ps[i].0 != ps[ps.len() - 1].0);
        lemma_assoc_at(dl, i);
    }
}

/// Replacing the value of the pair at `i` writes that value under its key.
pub proof fn lemma_assoc_update(ps: Pairs, i: int, value: Seq<char>)
    requires
        distinct_keys(ps),
        0 <= i < ps.len(),
    ensures
        assoc_map(ps.update(i, (ps[i].0, value))) == assoc_map(ps).insert(ps[i].0, value),
        distinct_keys(ps.update(i, (ps[i].0, value))),
    decreases ps.len(),
{
    let key = ps[i].0;
    let up = ps.update(i, (key, value));
    let dl = ps.drop_last();
    if i == ps.len() - 1 {
        assert(up.drop_last() =~= dl);
        assert(assoc_map(up) =~= assoc_map(ps).insert(key, value));
    } else {
        assert(up.drop_last() =~= dl.update(i, (dl[i].0, value)));
        assert(ps[i].0 != ps[ps.len() - 1].0);
        lemma_assoc_update(dl, i, value);
        assert(assoc_map(up) =~= assoc_map(ps).insert(key, value));
    }
}

/// Writing a pair is inserting it into the mapping, and keeps keys distinct.
pub proof fn lemma_put(ps: Pairs, key: Seq<char>, value: Seq<char>)
    requires
        distinct_keys(ps),
    ensures
        assoc_map(put(ps, key, value)) == assoc_map(ps).insert(key, value),
        distinct_keys(put(ps, key, value)),
{
    lemma_key_index(ps, key, 0);
    let i = key_index(ps, key, 0);
    if i < ps.len() {
        lemma_assoc_update(ps, i, value);
    } else {
        assert(ps.push((key, value)).drop_last() =~= ps);
    }
}

/// Two lists hold the same pairs, in whatever order.
pub open spec fn same_pairs(ps: Pairs, qs: Pairs) -> bool {
    &&& forall|i: int| 0 <= i < ps.len() ==> qs.contains(#[trigger] ps[i])
    &&& forall|j: int| 0 <= j < qs.len() ==> ps.contains(#[trigger] qs[j])
}

/// What `ps` maps, `qs` maps to the same value, where `qs` holds every pair
/// of `ps`.
proof fn lemma_sub_map(ps: Pairs, qs: Pairs, key: Seq<char>)
    requires
        distinct_keys(ps),
        distinct_keys(qs),
        forall|i: int| 0 <= i < ps.len() ==> qs.contains(#[trigger] ps[i]),
        assoc_map(ps).contains_key(key),
    ensures
        assoc_map(qs).contains_key(key),
        assoc_map(qs)[key] == assoc_map(ps)[key],
{
    lemma_assoc_dom(ps, key);
    let i = choose|i: int| 0 <= i < ps.len() && ps[i].0 == key;
    lemma_assoc_at(ps, i);
    assert(qs.contains(ps[i]));
    let j = choose|j: int| 0 <= j < qs.len() && qs[j] == ps[i];
    lemma_assoc_at(qs, j);
}

/// The order of pairs with distinct keys does not matter to the mapping.
pub proof fn lemma_order_irrelevant(ps: Pairs, qs: Pairs)
    requires
        distinct_keys(ps),
        distinct_keys(qs),
        same_pairs(ps, qs),
    ensures
        assoc_map(ps) == assoc_map(qs),
{
    let a = assoc_map(ps);
    let b = assoc_map(qs);
    assert forall|key: Seq<char>| #[trigger] a.contains_key(key) implies b.contains_key(key)
        && b[key] == a[key] by {
        lemma_sub_map(ps, qs, key);
    }
    assert forall|key: Seq<char>| #[trigger] b.contains_key(key) implies a.contains_key(key) by {
        lemma_sub_map(qs, ps, key);
    }
    assert(a.dom() =~= b.dom());
    assert(a =~= b);
}

/// The pairs that a vector of string pairs holds, as characters.
pub open spec fn pairs_of(v: Seq<(String, String)>) -> Pairs {
    Seq::new(v.len(), |i: int| (v[i].0@, v[i].1@))
}

/// A mapping from strings to strings.
#[derive(Debug)]
pub struct Params {
    entries: Vec<(String, String)>,
}

impl View for Params {
    type V = Map<Seq<char>, Seq<char>>;

    open spec fn view(&self) -> Map<Seq<char>, Seq<char>> {
        assoc_map(self.pairs())
    }
}

impl Clone for Params {
    fn clone(&self) -> (r: Params)
        ensures
            r.pairs() == self.pairs(),
            r@ == self@,
    {
        self.copy()
    }
}

impl Params {
    #[verifier::type_invariant]
    spec fn inv(self) -> bool {
        distinct_keys(self.pairs())
    }

    /// The entries in their order, as characters.
    pub closed spec fn pairs(self) -> Pairs {
        Seq::new(self.entries@.len(), |i: int| (self.entries@[i].0@, self.entries@[i].1@))
    }

    /// The empty mapping.
    pub fn new() -> (r: Params)
        ensures
            r.pairs() == Seq::<(Seq<char>, Seq<char>)>::empty(),
            r@ == Map::<Seq<char>, Seq<char>>::empty(),
    {
        let r = Params { entries: Vec::new() };
        assert(r.pairs() =~= Seq::<(Seq<char>, Seq<char>)>::empty());
        r
    }

    /// The number of entries. No key stands twice among them.
    pub fn len(&self) -> (n: usize)
        ensures
            n == self.pairs().len(),
            distinct_keys(self.pairs()),
    {
        proof {
            use_type_invariant(self);
        }
        self.entries.len()
    }

    /// Whether there is no entry.
    pub fn is_empty(&self) -> (b: bool)
        ensures
            b == (self.pairs().len() == 0),
    {
        self.entries.len() == 0
    }

    /// The key of the entry at `i`.
    pub fn key_at(&self, i: usize) -> (k: &String)
        requires
            i < self.pairs().len(),
        ensures
            k@ == self.pairs()[i as int].0,
    {
        &self.entries[i].0
    }

    /// The value of the entry at `i`.
    pub fn value_at(&self, i: usize) -> (v: &String)
        requires
            i < self.pairs().len(),
        ensures
            v@ == self.pairs()[i as int].1,
    {
        &self.entries[i].1
    }

    /// The index of the entry with `key`, or `len()` where there is none.
    pub fn position(&self, key: &str) -> (r: usize)
        ensures
            r == key_index(self.pairs(), key@, 0),
            r <= self.pairs().len(),
            r < self.pairs().len() <==> self@.contains_key(key@),
    {
        let mut i: usize = 0;
        while i < self.entries.len()
            invariant
                i <= self.entries@.len(),
                key_index(self.pairs(), key@, 0) == key_index(self.pairs(), key@, i as int),
            decreases self.entries.len() - i,
        {
            if same_text(self.entries[i].0.as_str(), key) {
                proof {
                    lemma_assoc_dom(self.pairs(), key@);
                }
                return i;
            }
            i += 1;
        }
        proof {
            lemma_key_index(self.pairs(), key@, 0);
            lemma_assoc_dom(self.pairs(), key@);
        }
        i
    }

    /// Whether `key` has a value.
    pub fn contains_key(&self, key: &str) -> (b: bool)
        ensures
            b == self@.contains_key(key@),
    {
        self.position(key) < self.entries.len()
    }

    /// The value under `key`, if there is one.
    pub fn get(&self, key: &str) -> (r: Option<&String>)
        ensures
            r is Some == self@.contains_key(key@),
            r matches Some(v) ==> v@ == self@[key@],
    {
        let i = self.position(key);
        if i < self.entries.len() {
            proof {
                use_type_invariant(self);
                lemma_key_index(self.pairs(), key@, 0);
                lemma_assoc_at(self.pairs(), i as int);
            }
            Some(&self.entries[i].1)
        } else {
            None
        }
    }

    /// Writes `value` under `key`. A key that is there keeps its place and
    /// gets the new value; a new key goes to the end.
    pub fn insert(&mut self, key: String, value: String)
        ensures
            final(self).pairs() == put(old(self).pairs(), key@, value@),
            final(self)@ == old(self)@.insert(key@, value@),
    {
        proof {
            use_type_invariant(&*self);
            lemma_put(self.pairs(), key@, value@);
            lemma_key_index(self.pairs(), key@, 0);
        }
        let i = self.position(key.as_str());
        let mut taken = Params { entries: Vec::new() };
        assert(taken.pairs() =~= Seq::<(Seq<char>, Seq<char>)>::empty());
        core::mem::swap(self, &mut taken);
        let mut entries = taken.entries;
        if i < entries.len() {
            entries.set(i, (key, value));
        } else {
            entries.push((key, value));
        }
        let ghost next = Seq::new(entries@.len(), |i: int| (entries@[i].0@, entries@[i].1@));
        assert(next =~= put(old(self).pairs(), key@, value@));
        *self = Params { entries };
    }

    /// The mapping that results from writing the pairs of `v` in turn.
    pub fn from_pairs(v: &Vec<(String, String)>) -> (r: Params)
        ensures
            r@ == assoc_map(pairs_of(v@)),
    {
        let mut r = Params::new();
        let mut i: usize = 0;
        assert(pairs_of(v@).subrange(0, 0) =~= Seq::<(Seq<char>, Seq<char>)>::empty());
        while i < v.len()
            invariant
                i <= v@.len(),
                r@ == assoc_map(pairs_of(v@).subrange(0, i as int)),
            decreases v.len() - i,
        {
            r.insert(v[i].0.clone(), v[i].1.clone());
            i += 1;
            assert(pairs_of(v@).subrange(0, i as int).drop_last() =~= pairs_of(v@).subrange(
                0,
                i - 1,
            ));
        }
        assert(pairs_of(v@).subrange(0, i as int) =~= pairs_of(v@));
        r
    }

    /// A copy with the same entries in the same order.
    pub fn copy(&self) -> (r: Params)
        ensures
            r.pairs() == self.pairs(),
            r@ == self@,
    {
        let mut entries: Vec<(String, String)> = Vec::new();
        let mut i: usize = 0;
        while i < self.entries.len()
            invariant
                i <= self.entries@.len(),
                entries@.len() == i,
                forall|j: int|
                    0 <= j < i ==> entries@[j].0@ == self.entries@[j].0@ && entries@[j].1@
                        == self.entries@[j].1@,
            decreases self.entries.len() - i,
        {
            let k = self.entries[i].0.clone();
            let v = self.entries[i].1.clone();
            entries.push((k, v));
            i += 1;
        }
        proof {
            use_type_invariant(self);
            assert(Seq::new(entries@.len(), |i: int| (entries@[i].0@, entries@[i].1@))
                =~= self.pairs());
        }
        Params { entries }
    }
}

} // verus!
