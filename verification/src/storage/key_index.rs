//! A hash index from keys to the positions where a table stores them.
//!
//! Positions are kept in buckets; the bucket of a key is its hash modulo the
//! number of buckets, and the hash is a multiply-and-add over the key's
//! UTF-8 bytes, modulo a prime below 2^32.
use vstd::prelude::*;
use vstd::string::*;
use vstd::utf8::encode_utf8;

verus! {

broadcast use vstd::seq::group_seq_axioms;

pub const HASH_START: u64 = 2166136261;
pub const HASH_FACTOR: u64 = 16777619;
pub const HASH_MODULUS: u64 = 4294967291;

/// The hash of a byte sequence.
pub open spec fn byte_hash(s: Seq<u8>) -> nat
    decreases s.len(),
{
    if s.len() == 0 {
        HASH_START as nat
    } else {
        ((byte_hash(s.drop_last()) * HASH_FACTOR + s.last()) % (HASH_MODULUS as int)) as nat
    }
}

/// The bucket of a key among `nb` buckets.
pub open spec fn slot(k: Seq<char>, nb: nat) -> int {
    (byte_hash(encode_utf8(k)) % nb) as int
}

/// The index `idx` holds, for the keys `keys`, each position in the bucket of
/// its key and nothing else, and no position twice.
pub open spec fn index_ok(keys: Seq<Seq<char>>, idx: Seq<Seq<usize>>) -> bool {
    &&& idx.len() > 0
    &&& forall|q: int| 0 <= q < keys.len() ==> #[trigger] idx[slot(keys[q], idx.len())].contains(q as usize)
    &&& forall|b: int, j: int|
        0 <= b < idx.len() && 0 <= j < idx[b].len() ==> (#[trigger] idx[b][j] as int) < keys.len()
            && slot(keys[idx[b][j] as int], idx.len()) == b
    &&& forall|b: int| 0 <= b < idx.len() ==> (#[trigger] idx[b]).no_duplicates()
}

/// Buckets of positions.
pub struct KeyIndex {
    buckets: Vec<Vec<usize>>,
}

impl View for KeyIndex {
    type V = Seq<Seq<usize>>;

    closed spec fn view(&self) -> Seq<Seq<usize>> {
        self.buckets@.map_values(|b: Vec<usize>| b@)
    }
}

/// The hash of `bytes`.
fn hash_bytes(bytes: &[u8]) -> (h: u64)
    ensures
        h == byte_hash(bytes@),
{
    let mut h: u64 = HASH_START;
    let mut i: usize = 0;
    assert(bytes@.take(0) =~= Seq::<u8>::empty());
    while i < bytes.len()
        invariant
            0 <= i <= bytes@.len(),
            h == byte_hash(bytes@.take(i as int)),
            h < HASH_MODULUS,
        decreases bytes@.len() - i,
    {
        assert(bytes@.take(i + 1).drop_last() =~= bytes@.take(i as int));
        h = (h * HASH_FACTOR + bytes[i] as u64) % HASH_MODULUS;
        i = i + 1;
    }
    assert(bytes@.take(bytes@.len() as int) =~= bytes@);
    h
}

/// The bucket of `key` among `nb` buckets.
pub fn slot_of(key: &str, nb: usize) -> (b: usize)
    requires
        nb > 0,
    ensures
        b == slot(key@, nb as nat),
        b < nb,
{
    let h = hash_bytes(key.as_bytes());
    (h % (nb as u64)) as usize
}

/// Where `x` is in `v`.
fn position(v: &Vec<usize>, x: usize) -> (j: usize)
    requires
        v@.contains(x),
    ensures
        j < v@.len(),
        v@[j as int] == x,
{
    let mut j: usize = 0;
    while j < v.len()
        invariant
            v@.contains(x),
            0 <= j <= v@.len(),
            forall|i: int| 0 <= i < j ==> v@[i] != x,
        decreases v@.len() - j,
    {
        if v[j] == x {
            return j;
        }
        j = j + 1;
    }
    assert(false);
    0
}

proof fn lemma_push_members(s: Seq<usize>, y: usize)
    requires
        s.no_duplicates(),
        !s.contains(y),
    ensures
        s.push(y).no_duplicates(),
        forall|x: usize| s.push(y).contains(x) <==> s.contains(x) || x == y,
{
    let t = s.push(y);
    assert forall|x: usize| t.contains(x) <==> s.contains(x) || x == y by {
        if t.contains(x) {
            let i = choose|i: int| 0 <= i < t.len() && t[i] == x;
            if i < s.len() {
                assert(s[i] == x);
            }
        }
        if s.contains(x) {
            let i = choose|i: int| 0 <= i < s.len() && s[i] == x;
            assert(t[i] == x);
        }
        if x == y {
            assert(t[s.len() as int] == x);
        }
    }
    assert forall|i: int, j: int| 0 <= i < t.len() && 0 <= j < t.len() && i != j implies t[i]
        != t[j] by {
        if i < s.len() && j < s.len() {
        } else if i < s.len() {
            assert(s.contains(t[i]));
        } else if j < s.len() {
            assert(s.contains(t[j]));
        }
    }
}

proof fn lemma_swap_remove_members(s: Seq<usize>, j: int)
    requires
        s.no_duplicates(),
        0 <= j < s.len(),
    ensures
        s.update(j, s.last()).drop_last().no_duplicates(),
        forall|x: usize|
            s.update(j, s.last()).drop_last().contains(x) <==> s.contains(x) && x != s[j],
{
    let t = s.update(j, s.last()).drop_last();
    let n = s.len() - 1;
    assert forall|x: usize| t.contains(x) <==> s.contains(x) && x != s[j] by {
        if t.contains(x) {
            let i = choose|i: int| 0 <= i < t.len() && t[i] == x;
            let si = if i == j { n } else { i };
            assert(s[si] == x);
            assert(si != j);
        }
        if s.contains(x) && x != s[j] {
            let i = choose|i: int| 0 <= i < s.len() && s[i] == x;
            assert(i != j);
            if i == n {
                assert(t[j] == x);
            } else {
                assert(t[i] == x);
            }
        }
    }
    assert forall|a: int, b: int| 0 <= a < t.len() && 0 <= b < t.len() && a != b implies t[a]
        != t[b] by {
        let sa = if a == j { n } else { a };
        let sb = if b == j { n } else { b };
        assert(t[a] == s[sa]);
        assert(t[b] == s[sb]);
    }
}

proof fn lemma_set_members(s: Seq<usize>, j: int, y: usize)
    requires
        s.no_duplicates(),
        !s.contains(y),
        0 <= j < s.len(),
    ensures
        s.update(j, y).no_duplicates(),
        forall|x: usize| s.update(j, y).contains(x) <==> (s.contains(x) && x != s[j]) || x == y,
{
    let t = s.update(j, y);
    assert forall|x: usize| t.contains(x) <==> (s.contains(x) && x != s[j]) || x == y by {
        if t.contains(x) {
            let i = choose|i: int| 0 <= i < t.len() && t[i] == x;
            if i != j {
                assert(s[i] == x);
            }
        }
        if s.contains(x) && x != s[j] {
            let i = choose|i: int| 0 <= i < s.len() && s[i] == x;
            assert(t[i] == x);
        }
        if x == y {
            assert(t[j] == x);
        }
    }
    assert forall|a: int, b: int| 0 <= a < t.len() && 0 <= b < t.len() && a != b implies t[a]
        != t[b] by {
        if a != j && b != j {
        } else if a == j {
            assert(s.contains(t[b]));
        } else {
            assert(s.contains(t[a]));
        }
    }
}

impl KeyIndex {
    /// An index of `nb` empty buckets.
    pub fn new(nb: usize) -> (r: Self)
        requires
            nb > 0,
        ensures
            index_ok(Seq::empty(), r@),
            r@.len() == nb,
    {
        let mut buckets: Vec<Vec<usize>> = Vec::new();
        let mut i: usize = 0;
        while i < nb
            invariant
                0 <= i <= nb,
                buckets@.len() == i,
                forall|b: int| 0 <= b < i ==> (#[trigger] buckets@[b])@.len() == 0,
            decreases nb - i,
        {
            buckets.push(Vec::new());
            i = i + 1;
        }
        let r = KeyIndex { buckets };
        assert forall|b: int| 0 <= b < r@.len() implies (#[trigger] r@[b]).no_duplicates() by {
            assert(r@[b].len() == 0);
        }
        r
    }

    /// The number of buckets.
    pub fn bucket_count(&self) -> (n: usize)
        ensures
            n == self@.len(),
    {
        self.buckets.len()
    }

    /// The positions in the bucket of `key`: all the positions where `key`
    /// is stored, and only positions of stored keys.
    pub fn positions(&self, key: &str, Ghost(keys): Ghost<Seq<Seq<char>>>) -> (r: &Vec<usize>)
        requires
            index_ok(keys, self@),
        ensures
            forall|q: int| 0 <= q < keys.len() && keys[q] == key@ ==> r@.contains(q as usize),
            forall|j: int| 0 <= j < r@.len() ==> (#[trigger] r@[j] as int) < keys.len(),
    {
        let b = slot_of(key, self.buckets.len());
        let r = &self.buckets[b];
        assert(r@ == self@[b as int]);
        assert forall|q: int| 0 <= q < keys.len() && keys[q] == key@ implies r@.contains(
            q as usize,
        ) by {
            assert(self@[slot(keys[q], self@.len())].contains(q as usize));
        }
        assert forall|j: int| 0 <= j < r@.len() implies (#[trigger] r@[j] as int) < keys.len() by {
            assert(self@[b as int][j] == r@[j]);
        }
        r
    }

    /// Records that `key` is now stored at the new last position.
    pub fn add(&mut self, key: &str, q: usize, Ghost(keys): Ghost<Seq<Seq<char>>>)
        requires
            index_ok(keys, old(self)@),
            q == keys.len(),
        ensures
            index_ok(keys.push(key@), final(self)@),
            final(self)@.len() == old(self)@.len(),
    {
        let ghost old_idx = self@;
        let b = slot_of(key, self.buckets.len());
        let mut bucket: Vec<usize> = Vec::new();
        self.buckets.set_and_swap(b, &mut bucket);
        proof {
            assert(bucket@ == old_idx[b as int]);
            assert(!bucket@.contains(q)) by {
                if bucket@.contains(q) {
                    let j = choose|j: int| 0 <= j < bucket@.len() && bucket@[j] == q;
                    assert(old_idx[b as int][j] == q);
                }
            }
            lemma_push_members(bucket@, q);
        }
        bucket.push(q);
        self.buckets.set_and_swap(b, &mut bucket);
        proof {
            let idx = self@;
            let nkeys = keys.push(key@);
            assert(idx =~= old_idx.update(b as int, old_idx[b as int].push(q)));
            assert forall|p: int| 0 <= p < nkeys.len() implies #[trigger] idx[slot(
                nkeys[p],
                idx.len(),
            )].contains(p as usize) by {
                if p < keys.len() {
                    assert(nkeys[p] == keys[p]);
                    assert(old_idx[slot(keys[p], old_idx.len())].contains(p as usize));
                }
            }
            assert forall|c: int, j: int| 0 <= c < idx.len() && 0 <= j < idx[c].len() implies (
            #[trigger] idx[c][j] as int) < nkeys.len() && slot(nkeys[idx[c][j] as int], idx.len())
                == c by {
                if c != b {
                    assert(idx[c] == old_idx[c]);
                } else {
                    assert(idx[c].contains(idx[c][j]));
                    if idx[c][j] != q {
                        assert(old_idx[c].contains(idx[c][j]));
                        let i = choose|i: int| 0 <= i < old_idx[c].len() && old_idx[c][i] == idx[c][j];
                        assert(old_idx[c][i] == idx[c][j]);
                    }
                }
            }
            assert forall|c: int| 0 <= c < idx.len() implies (#[trigger] idx[c]).no_duplicates() by {
                if c != b {
                    assert(idx[c] == old_idx[c]);
                }
            }
        }
    }

    /// Records that the key at position `p` is gone and that the key at the
    /// last position, `last`, has moved to `p`.
    pub fn remove(
        &mut self,
        p: usize,
        last: usize,
        key_p: &str,
        last_key: &str,
        Ghost(keys): Ghost<Seq<Seq<char>>>,
    )
        requires
            index_ok(keys, old(self)@),
            p <= last,
            last + 1 == keys.len(),
            keys[p as int] == key_p@,
            keys[last as int] == last_key@,
        ensures
            index_ok(keys.update(p as int, keys[last as int]).drop_last(), final(self)@),
            final(self)@.len() == old(self)@.len(),
    {
        let ghost idx0 = self@;
        let ghost nbn = idx0.len();
        let ghost bl = slot(keys[last as int], nbn);
        let nb = self.buckets.len();
        let bk = slot_of(key_p, nb);
        let mut bucket: Vec<usize> = Vec::new();
        self.buckets.set_and_swap(bk, &mut bucket);
        assert(bucket@ == idx0[bk as int]);
        assert(idx0[slot(keys[p as int], idx0.len())].contains((p as int) as usize));
        let jp = position(&bucket, p);
        proof {
            lemma_swap_remove_members(bucket@, jp as int);
        }
        bucket.swap_remove(jp);
        self.buckets.set_and_swap(bk, &mut bucket);
        let ghost idx1 = self@;
        assert(idx1.len() == nbn);
        assert forall|c: int, x: usize| 0 <= c < nbn implies #[trigger] idx1[c].contains(x) <==> (
        idx0[c].contains(x) && !(c == bk && x == p)) by {
            if c != bk {
                assert(idx1[c] == idx0[c]);
            } else {
                assert(idx1[c] == idx0[c].update(jp as int, idx0[c].last()).drop_last());
            }
        }
        if p < last {
            let blx = slot_of(last_key, nb);
            let mut bucket2: Vec<usize> = Vec::new();
            self.buckets.set_and_swap(blx, &mut bucket2);
            assert(bucket2@ == idx1[blx as int]);
            assert(idx0[slot(keys[last as int], idx0.len())].contains((last as int) as usize));
            assert(idx1[bl].contains(last));
            assert(!bucket2@.contains(p)) by {
                if bucket2@.contains(p) {
                    assert(idx0[bl].contains(p));
                    let j = choose|j: int| 0 <= j < idx0[bl].len() && idx0[bl][j] == p;
                    assert(slot(keys[idx0[bl][j] as int], nbn) == bl);
                }
            }
            let jl = position(&bucket2, last);
            proof {
                lemma_set_members(bucket2@, jl as int, p);
            }
            bucket2.set(jl, p);
            self.buckets.set_and_swap(blx, &mut bucket2);
        }
        proof {
            let idx2 = self@;
            let nkeys = keys.update(p as int, keys[last as int]).drop_last();
            assert(idx2.len() == nbn);
            // each bucket now holds what it held, less `p` and `last`, and
            // the bucket of the moved key holds `p` instead of `last`
            assert forall|c: int, x: usize| 0 <= c < nbn implies #[trigger] idx2[c].contains(x) <==> (
            (idx0[c].contains(x) && x != p && x != last) || (p < last && c == bl && x == p)) by {
                if p < last {
                    if c != bl {
                        assert(idx2[c] == idx1[c]);
                        if idx0[c].contains(x) && x == last {
                            let j = choose|j: int| 0 <= j < idx0[c].len() && idx0[c][j] == x;
                            assert(slot(keys[idx0[c][j] as int], nbn) == c);
                        }
                    }
                } else {
                    assert(idx2 == idx1);
                }
            }
            assert forall|q: int| 0 <= q < nkeys.len() implies #[trigger] idx2[slot(
                nkeys[q],
                idx2.len(),
            )].contains(q as usize) by {
                if q != p {
                    assert(nkeys[q] == keys[q]);
                    assert(idx0[slot(keys[q], nbn)].contains(q as usize));
                } else {
                    assert(nkeys[q] == keys[last as int]);
                }
            }
            assert forall|c: int, j: int| 0 <= c < idx2.len() && 0 <= j < idx2[c].len() implies (
            #[trigger] idx2[c][j] as int) < nkeys.len() && slot(nkeys[idx2[c][j] as int], idx2.len())
                == c by {
                let x = idx2[c][j];
                assert(idx2[c].contains(x));
                if idx0[c].contains(x) && x != p && x != last {
                    let i = choose|i: int| 0 <= i < idx0[c].len() && idx0[c][i] == x;
                    assert(slot(keys[idx0[c][i] as int], nbn) == c);
                    assert(nkeys[x as int] == keys[x as int]);
                } else {
                    assert(nkeys[p as int] == keys[last as int]);
                }
            }
            assert forall|c: int| 0 <= c < idx2.len() implies (#[trigger] idx2[c]).no_duplicates() by {
                if c != bk && !(p < last && c == bl) {
                    assert(idx2[c] == idx0[c]);
                }
            }
        }
    }
}

} // verus!
