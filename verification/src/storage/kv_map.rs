//! The table of keys and values that the store keeps in memory.
use vstd::prelude::*;
use crate::storage::key_index::{index_ok, KeyIndex};

verus! {

broadcast use vstd::seq::group_seq_axioms;

/// The table that a sequence of key and value pairs makes when each pair is
/// written in turn: a later pair for a key replaces an earlier one.
pub open spec fn pairs_map(s: Seq<(Seq<char>, Seq<u8>)>) -> Map<Seq<char>, Seq<u8>>
    decreases s.len(),
{
    if s.len() == 0 {
        Map::empty()
    } else {
        pairs_map(s.drop_last()).insert(s.last().0, s.last().1)
    }
}

/// No key occurs twice.
pub open spec fn keys_distinct(s: Seq<(Seq<char>, Seq<u8>)>) -> bool {
    forall|i: int, j: int| 0 <= i < j < s.len() ==> #[trigger] s[i].0 != #[trigger] s[j].0
}

/// A key is in the table of a sequence exactly when some pair has it.
pub proof fn lemma_pairs_map_dom(s: Seq<(Seq<char>, Seq<u8>)>, k: Seq<char>)
    ensures
        pairs_map(s).contains_key(k) <==> exists|i: int| 0 <= i < s.len() && #[trigger] s[i].0 == k,
    decreases s.len(),
{
    if s.len() > 0 {
        lemma_pairs_map_dom(s.drop_last(), k);
        if pairs_map(s.drop_last()).contains_key(k) {
            let i = choose|i: int| 0 <= i < s.drop_last().len() && #[trigger] s.drop_last()[i].0 == k;
            assert(s[i].0 == k);
        }
        if exists|i: int| 0 <= i < s.len() && #[trigger] s[i].0 == k {
            let i = choose|i: int| 0 <= i < s.len() && #[trigger] s[i].0 == k;
            if i < s.len() - 1 {
                assert(s.drop_last()[i].0 == k);
            }
        }
    }
}

/// With no key twice, the table holds each pair's value under its key.
pub proof fn lemma_pairs_map_value(s: Seq<(Seq<char>, Seq<u8>)>, i: int)
    requires
        keys_distinct(s),
        0 <= i < s.len(),
    ensures
        pairs_map(s).contains_key(s[i].0),
        pairs_map(s)[s[i].0] == s[i].1,
    decreases s.len(),
{
    if i < s.len() - 1 {
        let t = s.drop_last();
        assert(t[i] == s[i]);
        assert(s[i].0 != s[s.len() - 1].0);
        lemma_pairs_map_value(t, i);
    }
}

/// The keys of pairs, in order.
pub open spec fn keys_of(s: Seq<(Seq<char>, Seq<u8>)>) -> Seq<Seq<char>> {
    s.map_values(|p: (Seq<char>, Seq<u8>)| p.0)
}

/// The number of buckets that a new table starts with.
pub const INITIAL_BUCKETS: usize = 8;

/// A table of keys and values, each key at most once, with a hash index
/// from keys to where they are stored.
pub struct KvMap {
    entries: Vec<(String, Vec<u8>)>,
    index: KeyIndex,
}

impl KvMap {
    /// The pairs in the order they are stored.
    pub closed spec fn pairs(&self) -> Seq<(Seq<char>, Seq<u8>)> {
        pairs_of(self.entries@)
    }

    #[verifier::type_invariant]
    closed spec fn inv(&self) -> bool {
        &&& keys_distinct(self.pairs())
        &&& index_ok(keys_of(self.pairs()), self.index@)
    }
}

/// The pairs of keys and values that stored entries stand for.
pub open spec fn pairs_of(e: Seq<(String, Vec<u8>)>) -> Seq<(Seq<char>, Seq<u8>)> {
    e.map_values(|e: (String, Vec<u8>)| (e.0@, e.1@))
}

impl View for KvMap {
    type V = Map<Seq<char>, Seq<u8>>;

    closed spec fn view(&self) -> Map<Seq<char>, Seq<u8>> {
        pairs_map(self.pairs())
    }
}

/// Builds the index of `entries` with `nb` buckets.
fn build_index(entries: &Vec<(String, Vec<u8>)>, nb: usize) -> (r: KeyIndex)
    requires
        nb > 0,
    ensures
        index_ok(keys_of(pairs_of(entries@)), r@),
        r@.len() == nb,
{
    let ghost keys = keys_of(pairs_of(entries@));
    let mut index = KeyIndex::new(nb);
    let mut q: usize = 0;
    assert(keys.take(0) =~= Seq::<Seq<char>>::empty());
    while q < entries.len()
        invariant
            0 <= q <= entries@.len(),
            keys == keys_of(pairs_of(entries@)),
            index_ok(keys.take(q as int), index@),
            index@.len() == nb,
        decreases entries@.len() - q,
    {
        let key = entries[q].0.as_str();
        assert(keys[q as int] == key@);
        index.add(key, q, Ghost(keys.take(q as int)));
        assert(keys.take(q as int).push(key@) =~= keys.take(q + 1));
        q = q + 1;
    }
    assert(keys.take(entries@.len() as int) =~= keys);
    index
}

impl KvMap {
    /// The stored pairs make the table.
    pub proof fn lemma_view_is_pairs_map(&self)
        ensures
            self@ == pairs_map(self.pairs()),
    {
    }

    /// An empty table.
    pub fn new() -> (m: Self)
        ensures
            m@ == Map::<Seq<char>, Seq<u8>>::empty(),
            m.pairs().len() == 0,
    {
        let entries: Vec<(String, Vec<u8>)> = Vec::new();
        let index = KeyIndex::new(INITIAL_BUCKETS);
        assert(pairs_of(entries@) =~= Seq::<(Seq<char>, Seq<u8>)>::empty());
        assert(keys_of(pairs_of(entries@)) =~= Seq::<Seq<char>>::empty());
        KvMap { entries, index }
    }

    /// The number of keys.
    pub fn len(&self) -> (n: usize)
        ensures
            n == self.pairs().len(),
            n == self@.len(),
    {
        proof {
            use_type_invariant(self);
            lemma_distinct_len(self.pairs());
        }
        self.entries.len()
    }

    /// Where `key` is stored, if it is.
    fn find(&self, key: &str) -> (r: Option<usize>)
        ensures
            match r {
                Some(i) => i < self.pairs().len() && self.pairs()[i as int].0 == key@,
                None => forall|i: int| 0 <= i < self.pairs().len() ==> self.pairs()[i].0 != key@,
            },
    {
        proof {
            use_type_invariant(self);
        }
        let ghost keys = keys_of(self.pairs());
        let n = self.entries.len();
        let positions = self.index.positions(key, Ghost(keys));
        let mut j: usize = 0;
        while j < positions.len()
            invariant
                0 <= j <= positions@.len(),
                keys == keys_of(self.pairs()),
                keys.len() == self.entries@.len(),
                keys.len() == n,
                forall|q: int| 0 <= q < keys.len() && keys[q] == key@ ==> positions@.contains(q as usize),
                forall|jj: int| 0 <= jj < positions@.len() ==> (#[trigger] positions@[jj] as int) < keys.len(),
                forall|jj: int| 0 <= jj < j ==> keys[#[trigger] positions@[jj] as int] != key@,
            decreases positions@.len() - j,
        {
            let p = positions[j];
            assert(self.pairs()[p as int].0 == self.entries@[p as int].0@);
            if crate::text::str_eq(self.entries[p].0.as_str(), key) {
                return Some(p);
            }
            j = j + 1;
        }
        assert forall|i: int| 0 <= i < self.pairs().len() implies self.pairs()[i].0 != key@ by {
            if self.pairs()[i].0 == key@ {
                assert(keys[i] == key@);
                assert(positions@.contains(i as usize));
                let jj = choose|jj: int| 0 <= jj < positions@.len() && positions@[jj] == i as usize;
                assert(jj < j);
                assert((positions@[jj] as int) == i);
                assert(keys[positions@[jj] as int] != key@);
            }
        }
        None
    }

    /// The value stored under `key`.
    pub fn get(&self, key: &str) -> (r: Option<&Vec<u8>>)
        ensures
            match r {
                Some(v) => self@.contains_key(key@) && v@ == self@[key@],
                None => !self@.contains_key(key@),
            },
    {
        proof {
            use_type_invariant(self);
            lemma_pairs_map_dom(self.pairs(), key@);
        }
        match self.find(key) {
            Some(i) => {
                proof {
                    lemma_pairs_map_value(self.pairs(), i as int);
                }
                Some(&self.entries[i].1)
            },
            None => None,
        }
    }

    /// The key and value stored at position `i`.
    pub fn entry(&self, i: usize) -> (r: (&str, &[u8]))
        requires
            i < self.pairs().len(),
        ensures
            r.0@ == self.pairs()[i as int].0,
            r.1@ == self.pairs()[i as int].1,
    {
        let e = &self.entries[i];
        (e.0.as_str(), e.1.as_slice())
    }

    /// Takes the entries and the index out, leaving an empty table.
    fn take_parts(&mut self) -> (r: (Vec<(String, Vec<u8>)>, KeyIndex))
        ensures
            pairs_of(r.0@) == old(self).pairs(),
            keys_distinct(pairs_of(r.0@)),
            index_ok(keys_of(pairs_of(r.0@)), r.1@),
    {
        proof {
            use_type_invariant(&*self);
        }
        let mut this = KvMap::new();
        std::mem::swap(self, &mut this);
        proof {
            use_type_invariant(&this);
        }
        let KvMap { entries, index } = this;
        (entries, index)
    }

    /// Stores `value` under `key`, replacing what was there.
    pub fn insert(&mut self, key: String, value: Vec<u8>)
        ensures
            final(self)@ == old(self)@.insert(key@, value@),
    {
        let ghost old_pairs = self.pairs();
        let found = self.find(key.as_str());
        let (mut entries, mut index) = self.take_parts();
        let ghost k = key@;
        let ghost v = value@;
        match found {
            Some(i) => {
                entries.set(i, (key, value));
                proof {
                    let new_pairs = pairs_of(entries@);
                    assert(new_pairs =~= old_pairs.update(i as int, (k, v)));
                    lemma_update_same_key(old_pairs, i as int, v);
                    assert(keys_of(new_pairs) =~= keys_of(old_pairs));
                }
                *self = KvMap { entries, index };
            },
            None => {
                let n = entries.len();
                index.add(key.as_str(), n, Ghost(keys_of(old_pairs)));
                entries.push((key, value));
                let ghost new_pairs = pairs_of(entries@);
                proof {
                    assert(new_pairs =~= old_pairs.push((k, v)));
                    assert(new_pairs.drop_last() =~= old_pairs);
                    assert(keys_of(new_pairs) =~= keys_of(old_pairs).push(k));
                    assert forall|a: int, b: int| 0 <= a < b < new_pairs.len() implies
                        #[trigger] new_pairs[a].0 != #[trigger] new_pairs[b].0 by {
                        if b == new_pairs.len() - 1 {
                            assert(old_pairs[a].0 != k);
                        } else {
                            assert(old_pairs[a].0 != old_pairs[b].0);
                        }
                    }
                }
                let nb = index.bucket_count();
                if entries.len() / 2 > nb {
                    index = build_index(&entries, nb * 2);
                }
                *self = KvMap { entries, index };
            },
        }
    }

    /// Takes `key` out of the table, with the value it had.
    pub fn remove(&mut self, key: &str) -> (r: Option<Vec<u8>>)
        ensures
            final(self)@ == old(self)@.remove(key@),
            match r {
                Some(v) => old(self)@.contains_key(key@) && v@ == old(self)@[key@],
                None => !old(self)@.contains_key(key@),
            },
    {
        proof {
            use_type_invariant(&*self);
            lemma_pairs_map_dom(self.pairs(), key@);
        }
        let ghost old_pairs = self.pairs();
        match self.find(key) {
            Some(i) => {
                proof {
                    lemma_pairs_map_value(old_pairs, i as int);
                }
                let (mut entries, mut index) = self.take_parts();
                let last = entries.len() - 1;
                proof {
                    assert(keys_of(old_pairs)[i as int] == entries@[i as int].0@);
                    assert(keys_of(old_pairs)[last as int] == entries@[last as int].0@);
                }
                index.remove(
                    i,
                    last,
                    entries[i].0.as_str(),
                    entries[last].0.as_str(),
                    Ghost(keys_of(old_pairs)),
                );
                let (_k, v) = entries.swap_remove(i);
                let ghost new_pairs = pairs_of(entries@);
                proof {
                    assert(new_pairs =~= old_pairs.update(i as int, old_pairs.last()).drop_last());
                    assert(keys_of(new_pairs) =~= keys_of(old_pairs).update(
                        i as int,
                        keys_of(old_pairs)[last as int],
                    ).drop_last());
                    lemma_swap_remove(old_pairs, i as int);
                }
                *self = KvMap { entries, index };
                Some(v)
            },
            None => {
                proof {
                    assert(old(self)@.remove(key@) =~= old(self)@);
                }
                None
            },
        }
    }
}

/// With no key twice, the table has as many keys as there are pairs.
proof fn lemma_distinct_len(s: Seq<(Seq<char>, Seq<u8>)>)
    requires
        keys_distinct(s),
    ensures
        pairs_map(s).len() == s.len(),
        pairs_map(s).dom().finite(),
    decreases s.len(),
{
    if s.len() > 0 {
        let t = s.drop_last();
        assert(keys_distinct(t)) by {
            assert forall|i: int, j: int| 0 <= i < j < t.len() implies #[trigger] t[i].0
                != #[trigger] t[j].0 by {
                assert(s[i].0 != s[j].0);
            }
        }
        lemma_distinct_len(t);
        lemma_pairs_map_dom(t, s.last().0);
        if pairs_map(t).contains_key(s.last().0) {
            let i = choose|i: int| 0 <= i < t.len() && #[trigger] t[i].0 == s.last().0;
            assert(s[i].0 == s[s.len() - 1].0);
        }
    }
}

/// Writing a new value over the pair that holds a key writes the key's
/// value in the table.
proof fn lemma_update_same_key(s: Seq<(Seq<char>, Seq<u8>)>, i: int, v: Seq<u8>)
    requires
        keys_distinct(s),
        0 <= i < s.len(),
    ensures
        keys_distinct(s.update(i, (s[i].0, v))),
        pairs_map(s.update(i, (s[i].0, v))) == pairs_map(s).insert(s[i].0, v),
{
    let t = s.update(i, (s[i].0, v));
    let k = s[i].0;
    assert forall|a: int, b: int| 0 <= a < b < t.len() implies #[trigger] t[a].0
        != #[trigger] t[b].0 by {
        assert(s[a].0 != s[b].0);
    }
    assert forall|k2: Seq<char>| #[trigger] pairs_map(t).contains_key(k2) <==> pairs_map(
        s,
    ).insert(k, v).contains_key(k2) by {
        lemma_pairs_map_dom(s, k2);
        lemma_pairs_map_dom(t, k2);
        if exists|j: int| 0 <= j < s.len() && #[trigger] s[j].0 == k2 {
            let j = choose|j: int| 0 <= j < s.len() && #[trigger] s[j].0 == k2;
            assert(t[j].0 == k2);
        }
        if exists|j: int| 0 <= j < t.len() && #[trigger] t[j].0 == k2 {
            let j = choose|j: int| 0 <= j < t.len() && #[trigger] t[j].0 == k2;
            assert(s[j].0 == k2);
        }
        if k2 == k {
            assert(t[i].0 == k2);
        }
    }
    assert forall|k2: Seq<char>| #[trigger] pairs_map(t).contains_key(k2) implies pairs_map(t)[k2]
        == pairs_map(s).insert(k, v)[k2] by {
        lemma_pairs_map_dom(t, k2);
        let j = choose|j: int| 0 <= j < t.len() && #[trigger] t[j].0 == k2;
        lemma_pairs_map_value(t, j);
        if j != i {
            assert(s[j] == t[j]);
            lemma_pairs_map_value(s, j);
        } else {
        }
    }
    assert(pairs_map(t) =~= pairs_map(s).insert(k, v));
}

/// Moving the last pair into the place of pair `i` takes pair `i`'s key out
/// of the table.
proof fn lemma_swap_remove(s: Seq<(Seq<char>, Seq<u8>)>, i: int)
    requires
        keys_distinct(s),
        0 <= i < s.len(),
    ensures
        keys_distinct(s.update(i, s.last()).drop_last()),
        pairs_map(s.update(i, s.last()).drop_last()) == pairs_map(s).remove(s[i].0),
{
    let t = s.update(i, s.last()).drop_last();
    let k = s[i].0;
    let n = s.len() - 1;
    // position in `t` of each pair of `s` other than pair `i`
    assert forall|a: int, b: int| 0 <= a < b < t.len() implies #[trigger] t[a].0
        != #[trigger] t[b].0 by {
        let sa = if a == i { n } else { a };
        let sb = if b == i { n } else { b };
        assert(t[a] == s[sa]);
        assert(t[b] == s[sb]);
        assert(s[sa].0 != s[sb].0);
    }
    assert forall|k2: Seq<char>| #[trigger] pairs_map(t).contains_key(k2) <==> pairs_map(
        s,
    ).remove(k).contains_key(k2) by {
        lemma_pairs_map_dom(s, k2);
        lemma_pairs_map_dom(t, k2);
        if exists|j: int| 0 <= j < s.len() && #[trigger] s[j].0 == k2 {
            let j = choose|j: int| 0 <= j < s.len() && #[trigger] s[j].0 == k2;
            if k2 != k {
                assert(j != i);
                if j == n {
                    assert(t[i].0 == k2);
                } else {
                    assert(t[j].0 == k2);
                }
            }
        }
        if exists|j: int| 0 <= j < t.len() && #[trigger] t[j].0 == k2 {
            let j = choose|j: int| 0 <= j < t.len() && #[trigger] t[j].0 == k2;
            let sj = if j == i { n } else { j };
            assert(s[sj].0 == k2);
            assert(sj != i);
        }
    }
    assert forall|k2: Seq<char>| #[trigger] pairs_map(t).contains_key(k2) implies pairs_map(t)[k2]
        == pairs_map(s).remove(k)[k2] by {
        lemma_pairs_map_dom(t, k2);
        let j = choose|j: int| 0 <= j < t.len() && #[trigger] t[j].0 == k2;
        let sj = if j == i { n } else { j };
        assert(t[j] == s[sj]);
        lemma_pairs_map_value(t, j);
        lemma_pairs_map_value(s, sj);
        assert(sj != i);
    }
    assert(pairs_map(t) =~= pairs_map(s).remove(k));
}

} // verus!
