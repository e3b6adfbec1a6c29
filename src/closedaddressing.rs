//! A table that resolves collisions by separate chaining: a fixed number of
//! buckets, each holding an optional chain of entries.

use crate::digest::{compute_bucket_index, compute_hash, digest_of, map_get, slot_of};
use vstd::prelude::*;

verus! {

/// One entry of a chain: a key's digest and its value.
#[derive(Clone, Copy, Debug)]
pub struct Bucket {
    pub hashed_key: u64,
    pub value: i32,
}

/// No two entries of the chain share a digest.
pub open spec fn unique_digests(c: Seq<Bucket>) -> bool {
    forall|i: int, j: int|
        0 <= i < c.len() && 0 <= j < c.len() && c[i].hashed_key == c[j].hashed_key ==> i == j
}

/// The value that a chain holds for digest `d`, if any entry has it.
pub open spec fn chain_lookup(c: Seq<Bucket>, d: u64) -> Option<i32> {
    if exists|j: int| 0 <= j < c.len() && c[j].hashed_key == d {
        Some(c[choose|j: int| 0 <= j < c.len() && c[j].hashed_key == d].value)
    } else {
        None
    }
}

proof fn lemma_chain_lookup_at(c: Seq<Bucket>, j: int)
    requires
        unique_digests(c),
        0 <= j < c.len(),
    ensures
        chain_lookup(c, c[j].hashed_key) == Some(c[j].value),
{
}

proof fn lemma_chain_update(c: Seq<Bucket>, i: int, b: Bucket)
    requires
        unique_digests(c),
        0 <= i < c.len(),
        c[i].hashed_key == b.hashed_key,
    ensures
        unique_digests(c.update(i, b)),
        forall|x: u64|
            chain_lookup(c.update(i, b), x) == if x == b.hashed_key {
                Some(b.value)
            } else {
                chain_lookup(c, x)
            },
{
    let n = c.update(i, b);
    assert forall|x: u64|
        chain_lookup(n, x) == if x == b.hashed_key {
            Some(b.value)
        } else {
            chain_lookup(c, x)
        } by {
        if x == b.hashed_key {
            lemma_chain_lookup_at(n, i);
        } else if exists|j: int| 0 <= j < c.len() && c[j].hashed_key == x {
            let j = choose|j: int| 0 <= j < c.len() && c[j].hashed_key == x;
            lemma_chain_lookup_at(c, j);
            lemma_chain_lookup_at(n, j);
        } else {
            assert(!exists|j: int| 0 <= j < n.len() && n[j].hashed_key == x);
        }
    }
}

proof fn lemma_chain_push(c: Seq<Bucket>, b: Bucket)
    requires
        unique_digests(c),
        forall|j: int| 0 <= j < c.len() ==> c[j].hashed_key != b.hashed_key,
    ensures
        unique_digests(c.push(b)),
        forall|x: u64|
            chain_lookup(c.push(b), x) == if x == b.hashed_key {
                Some(b.value)
            } else {
                chain_lookup(c, x)
            },
{
    let n = c.push(b);
    assert forall|x: u64|
        chain_lookup(n, x) == if x == b.hashed_key {
            Some(b.value)
        } else {
            chain_lookup(c, x)
        } by {
        if x == b.hashed_key {
            lemma_chain_lookup_at(n, c.len() as int);
        } else if exists|j: int| 0 <= j < c.len() && c[j].hashed_key == x {
            let j = choose|j: int| 0 <= j < c.len() && c[j].hashed_key == x;
            lemma_chain_lookup_at(c, j);
            lemma_chain_lookup_at(n, j);
        } else {
            assert(!exists|j: int| 0 <= j < n.len() && n[j].hashed_key == x);
        }
    }
}

proof fn lemma_chain_remove(c: Seq<Bucket>, i: int)
    requires
        unique_digests(c),
        0 <= i < c.len(),
    ensures
        unique_digests(c.remove(i)),
        forall|x: u64|
            chain_lookup(c.remove(i), x) == if x == c[i].hashed_key {
                None
            } else {
                chain_lookup(c, x)
            },
{
    let n = c.remove(i);
    assert forall|a: int, b: int|
        0 <= a < n.len() && 0 <= b < n.len() && n[a].hashed_key == n[b].hashed_key implies a
        == b by {
        let a2 = if a < i { a } else { a + 1 };
        let b2 = if b < i { b } else { b + 1 };
        assert(n[a] == c[a2]);
        assert(n[b] == c[b2]);
    }
    assert forall|x: u64|
        chain_lookup(n, x) == if x == c[i].hashed_key {
            None
        } else {
            chain_lookup(c, x)
        } by {
        if exists|j: int| 0 <= j < n.len() && n[j].hashed_key == x {
            let j = choose|j: int| 0 <= j < n.len() && n[j].hashed_key == x;
            let j2 = if j < i { j } else { j + 1 };
            assert(n[j] == c[j2]);
            lemma_chain_lookup_at(c, j2);
            lemma_chain_lookup_at(n, j);
        } else if x != c[i].hashed_key {
            assert forall|j: int| 0 <= j < c.len() implies c[j].hashed_key != x by {
                if j < i {
                    assert(n[j] == c[j]);
                } else if j > i {
                    assert(n[j - 1] == c[j]);
                }
            }
        }
    }
}

/// The chain `c` after an upsert of `b`: the entry with the digest of `b`
/// replaced in place, or `b` appended at the tail where there is none.
pub open spec fn chain_upserted(c: Seq<Bucket>, b: Bucket) -> Seq<Bucket> {
    if exists|j: int| 0 <= j < c.len() && c[j].hashed_key == b.hashed_key {
        c.update(choose|j: int| 0 <= j < c.len() && c[j].hashed_key == b.hashed_key, b)
    } else {
        c.push(b)
    }
}

/// The chain `c` after a delete of digest `d`: the entry with that digest
/// removed, the others in their order, or `c` itself where there is none.
pub open spec fn chain_deleted(c: Seq<Bucket>, d: u64) -> Seq<Bucket> {
    if exists|j: int| 0 <= j < c.len() && c[j].hashed_key == d {
        c.remove(choose|j: int| 0 <= j < c.len() && c[j].hashed_key == d)
    } else {
        c
    }
}

/// A table of `INITIAL_SIZE` buckets whose chains grow without bound.
#[derive(Debug)]
pub struct HashTable {
    chains: Vec<Option<Vec<Bucket>>>,
}

pub const INITIAL_SIZE: usize = 16;

impl HashTable {
    /// Every entry sits in the bucket its digest selects, no chain holds a
    /// digest twice, and the number of buckets is fixed.
    pub closed spec fn wf(&self) -> bool {
        &&& self.chains@.len() == INITIAL_SIZE
        &&& forall|i: int|
            0 <= i < self.chains@.len() && (#[trigger] self.chains@[i]) is Some ==> {
                let c = self.chains@[i]->Some_0@;
                &&& unique_digests(c)
                &&& forall|j: int|
                    0 <= j < c.len() ==> slot_of(#[trigger] c[j].hashed_key, INITIAL_SIZE as nat)
                        == i
            }
    }

    /// The value stored for digest `d`.
    pub closed spec fn lookup(&self, d: u64) -> Option<i32> {
        match self.chains@[slot_of(d, self.chains@.len())] {
            None => None,
            Some(c) => chain_lookup(c@, d),
        }
    }

    /// The entries of bucket `i`, empty where it has no chain.
    pub closed spec fn chain(&self, i: int) -> Seq<Bucket> {
        match self.chains@[i] {
            None => Seq::empty(),
            Some(c) => c@,
        }
    }

    /// The number of buckets.
    pub closed spec fn spec_len(&self) -> nat {
        self.chains@.len()
    }
}

impl View for HashTable {
    type V = Map<u64, i32>;

    /// The mapping from digests to values that the table holds.
    closed spec fn view(&self) -> Map<u64, i32> {
        Map::new(|d: u64| self.lookup(d) is Some, |d: u64| self.lookup(d)->Some_0)
    }
}

impl HashTable {
    /// An empty table of `INITIAL_SIZE` empty buckets.
    pub fn new() -> (r: Self)
        ensures
            r.wf(),
            r@ == Map::<u64, i32>::empty(),
    {
        let mut chains: Vec<Option<Vec<Bucket>>> = Vec::new();
        let mut i: usize = 0;
        while i < INITIAL_SIZE
            invariant
                i <= INITIAL_SIZE,
                chains@.len() == i,
                forall|j: int| 0 <= j < i ==> chains@[j] is None,
            decreases INITIAL_SIZE - i,
        {
            chains.push(None);
            i += 1;
        }
        let r = HashTable { chains };
        assert(r@ =~= Map::<u64, i32>::empty());
        r
    }

    /// The number of buckets.
    fn len(&self) -> (r: usize)
        ensures
            r == self.spec_len(),
    {
        self.chains.len()
    }

    /// Stores `value` under the digest of `key`, replacing the value that
    /// digest had.
    pub fn upsert(&mut self, key: String, value: i32)
        requires
            old(self).wf(),
        ensures
            final(self).wf(),
            final(self)@ == old(self)@.insert(digest_of(key@), value),
            final(self).spec_len() == old(self).spec_len(),
            final(self).chain(slot_of(digest_of(key@), INITIAL_SIZE as nat)) == chain_upserted(
                old(self).chain(slot_of(digest_of(key@), INITIAL_SIZE as nat)),
                Bucket { hashed_key: digest_of(key@), value: value },
            ),
            forall|i: int|
                0 <= i < INITIAL_SIZE && i != slot_of(digest_of(key@), INITIAL_SIZE as nat)
                    ==> #[trigger] final(self).chain(i) == old(self).chain(i),
    {
        let hashed_key = compute_hash(key.as_str());
        let idx = compute_bucket_index(hashed_key, self.len());
        let bucket = Bucket { hashed_key, value };
        let ghost before = *self;
        let mut taken: Option<Vec<Bucket>> = None;
        self.chains.set_and_swap(idx, &mut taken);
        let mut chain: Vec<Bucket> = match taken {
            None => Vec::new(),
            Some(c) => c,
        };
        let ghost c0 = chain@;
        assert(unique_digests(c0)) by {
            if before.chains@[idx as int] is Some {
            }
        }
        let mut i: usize = 0;
        let mut found = false;
        while i < chain.len() && !found
            invariant
                chain@ == c0,
                i <= chain@.len(),
                found ==> i < chain@.len() && chain@[i as int].hashed_key == hashed_key,
                forall|j: int| 0 <= j < i ==> chain@[j].hashed_key != hashed_key,
            decreases chain@.len() - i + if found { 0int } else { 1int },
        {
            if chain[i].hashed_key == hashed_key {
                found = true;
            } else {
                i += 1;
            }
        }
        if found {
            proof {
                lemma_chain_update(c0, i as int, bucket);
            }
            chain.set(i, bucket);
        } else {
            proof {
                lemma_chain_push(c0, bucket);
            }
            chain.push(bucket);
        }
        let ghost c1 = chain@;
        let mut put = Some(chain);
        self.chains.set_and_swap(idx, &mut put);
        proof {
            assert(self.chains@ == before.chains@.update(idx as int, Some(chain)));
            assert forall|x: u64|
                self.lookup(x) == if x == hashed_key {
                    Some(value)
                } else {
                    before.lookup(x)
                } by {
                if slot_of(x, INITIAL_SIZE as nat) == idx {
                    if before.chains@[idx as int] is None {
                        assert(c0.len() == 0);
                    }
                }
            }
            assert(self@ =~= before@.insert(hashed_key, value));
            assert(before.chain(idx as int) == c0);
            if found {
                let j = choose|j: int| 0 <= j < c0.len() && c0[j].hashed_key == hashed_key;
                assert(c0[i as int].hashed_key == hashed_key);
                assert(j == i);
            }
            assert(self.chain(idx as int) == chain_upserted(c0, bucket));
            assert forall|k: int| 0 <= k < INITIAL_SIZE && k != idx implies #[trigger] self.chain(k)
                == before.chain(k) by {
                assert(self.chains@[k] == before.chains@[k]);
            }
        }
    }
    /// The value stored under the digest of `key`.
    pub fn get(&self, key: &str) -> (r: Option<i32>)
        requires
            self.wf(),
        ensures
            r == map_get(self@, digest_of(key@)),
    {
        let hashed_key = compute_hash(key);
        let idx = compute_bucket_index(hashed_key, self.len());
        match &self.chains[idx] {
            None => None,
            Some(chain) => {
                let ghost c = chain@;
                assert(unique_digests(c));
                let mut i: usize = 0;
                while i < chain.len()
                    invariant
                        chain@ == c,
                        unique_digests(c),
                        hashed_key == digest_of(key@),
                        self.lookup(hashed_key) == chain_lookup(c, hashed_key),
                        self@.contains_key(hashed_key) == self.lookup(hashed_key) is Some,
                        self@.contains_key(hashed_key) ==> self@[hashed_key] == self.lookup(
                            hashed_key,
                        )->Some_0,
                        i <= c.len(),
                        forall|j: int| 0 <= j < i ==> c[j].hashed_key != hashed_key,
                    decreases c.len() - i,
                {
                    if chain[i].hashed_key == hashed_key {
                        proof {
                            lemma_chain_lookup_at(c, i as int);
                        }
                        return Some(chain[i].value);
                    }
                    i += 1;
                }
                None
            },
        }
    }

    /// Removes the entry for the digest of `key`, if there is one; the other
    /// entries of its chain keep their order.
    pub fn delete(&mut self, key: &str)
        requires
            old(self).wf(),
        ensures
            final(self).wf(),
            final(self)@ == old(self)@.remove(digest_of(key@)),
            final(self).spec_len() == old(self).spec_len(),
            final(self).chain(slot_of(digest_of(key@), INITIAL_SIZE as nat)) == chain_deleted(
                old(self).chain(slot_of(digest_of(key@), INITIAL_SIZE as nat)),
                digest_of(key@),
            ),
            forall|i: int|
                0 <= i < INITIAL_SIZE && i != slot_of(digest_of(key@), INITIAL_SIZE as nat)
                    ==> #[trigger] final(self).chain(i) == old(self).chain(i),
    {
        let hashed_key = compute_hash(key);
        let idx = compute_bucket_index(hashed_key, self.len());
        if self.chains[idx].is_none() {
            assert(self@ =~= self@.remove(hashed_key));
            return;
        }
        let ghost before = *self;
        let mut taken: Option<Vec<Bucket>> = None;
        self.chains.set_and_swap(idx, &mut taken);
        let mut chain: Vec<Bucket> = match taken {
            None => Vec::new(),
            Some(c) => c,
        };
        let ghost c0 = chain@;
        assert(unique_digests(c0));
        let mut delete_idx: Option<usize> = None;
        let mut i: usize = 0;
        while i < chain.len() && delete_idx.is_none()
            invariant
                chain@ == c0,
                i <= c0.len(),
                delete_idx matches Some(k) ==> k < c0.len() && c0[k as int].hashed_key
                    == hashed_key,
                delete_idx is None ==> forall|j: int| 0 <= j < i ==> c0[j].hashed_key != hashed_key,
            decreases c0.len() - i + if delete_idx is None { 1int } else { 0int },
        {
            if chain[i].hashed_key == hashed_key {
                delete_idx = Some(i);
            } else {
                i += 1;
            }
        }
        match delete_idx {
            Some(k) => {
                proof {
                    lemma_chain_remove(c0, k as int);
                }
                chain.remove(k);
            },
            None => {},
        }
        let mut put = Some(chain);
        self.chains.set_and_swap(idx, &mut put);
        proof {
            assert forall|x: u64|
                self.lookup(x) == if x == hashed_key {
                    None
                } else {
                    before.lookup(x)
                } by {
                if slot_of(x, INITIAL_SIZE as nat) == idx {
                }
            }
            assert(self@ =~= before@.remove(hashed_key));
            assert(before.chain(idx as int) == c0);
            if let Some(k) = delete_idx {
                let j = choose|j: int| 0 <= j < c0.len() && c0[j].hashed_key == hashed_key;
                assert(c0[k as int].hashed_key == hashed_key);
                assert(j == k);
            }
            assert(self.chain(idx as int) == chain_deleted(c0, hashed_key));
            assert forall|k: int| 0 <= k < INITIAL_SIZE && k != idx implies #[trigger] self.chain(k)
                == before.chain(k) by {
                assert(self.chains@[k] == before.chains@[k]);
            }
        }
    }
}

proof fn lemma_upserts_prefix(ts: Seq<HashTable>, ks: Seq<Seq<char>>, vs: Seq<i32>, k: int)
    requires
        ks.len() == vs.len(),
        ts.len() == ks.len() + 1,
        0 <= k <= ks.len(),
        forall|i: int, j: int|
            0 <= i < ks.len() && 0 <= j < ks.len() && digest_of(ks[i]) == digest_of(ks[j])
                ==> vs[i] == vs[j],
        forall|i: int|
            0 <= i < ks.len() ==> ts[i + 1]@ == ts[i]@.insert(digest_of(ks[i]), vs[i]),
    ensures
        forall|i: int| 0 <= i < k ==> map_get(ts[k]@, digest_of(ks[i])) == Some(vs[i]),
    decreases k,
{
    if k > 0 {
        lemma_upserts_prefix(ts, ks, vs, k - 1);
        assert(ts[k]@ == ts[k - 1]@.insert(digest_of(ks[k - 1]), vs[k - 1]));
    }
}

/// After upserts of distinct keys, one after another, each key maps to the
/// value it was given. Keys are told apart by digest, so keys that share a
/// digest must carry equal values.
pub proof fn law_distinct_upserts(ts: Seq<HashTable>, ks: Seq<Seq<char>>, vs: Seq<i32>)
    requires
        ks.len() == vs.len(),
        ts.len() == ks.len() + 1,
        forall|i: int, j: int| 0 <= i < j < ks.len() ==> ks[i] != ks[j],
        forall|i: int, j: int|
            0 <= i < ks.len() && 0 <= j < ks.len() && digest_of(ks[i]) == digest_of(ks[j])
                ==> vs[i] == vs[j],
        forall|i: int|
            0 <= i < ks.len() ==> ts[i + 1]@ == ts[i]@.insert(digest_of(ks[i]), vs[i]),
    ensures
        forall|i: int|
            0 <= i < ks.len() ==> map_get(ts[ks.len() as int]@, digest_of(ks[i])) == Some(vs[i]),
{
    lemma_upserts_prefix(ts, ks, vs, ks.len() as int);
}

/// A second upsert of a key replaces its value and adds no entry.
pub proof fn law_upsert_overwrites(
    t0: HashTable,
    t1: HashTable,
    t2: HashTable,
    k: Seq<char>,
    v1: i32,
    v2: i32,
)
    requires
        t1@ == t0@.insert(digest_of(k), v1),
        t2@ == t1@.insert(digest_of(k), v2),
    ensures
        map_get(t2@, digest_of(k)) == Some(v2),
        t2@.dom() == t1@.dom(),
        t2@.len() == t1@.len(),
{
    assert(t2@.dom() =~= t1@.dom());
}

/// A deleted key is gone, and an upsert after the delete brings it back
/// with the new value.
pub proof fn law_delete_then_upsert(
    t0: HashTable,
    t1: HashTable,
    t2: HashTable,
    t3: HashTable,
    k: Seq<char>,
    v: i32,
    v2: i32,
)
    requires
        t1@ == t0@.insert(digest_of(k), v),
        t2@ == t1@.remove(digest_of(k)),
        t3@ == t2@.insert(digest_of(k), v2),
    ensures
        map_get(t2@, digest_of(k)) is None,
        map_get(t3@, digest_of(k)) == Some(v2),
{
}

/// Deleting a key that the table does not hold changes no chain.
pub proof fn law_delete_missing(t0: HashTable, t1: HashTable, k: Seq<char>)
    requires
        t0.wf(),
        !t0@.contains_key(digest_of(k)),
        t1@ == t0@.remove(digest_of(k)),
        t1.chain(slot_of(digest_of(k), INITIAL_SIZE as nat)) == chain_deleted(
            t0.chain(slot_of(digest_of(k), INITIAL_SIZE as nat)),
            digest_of(k),
        ),
        forall|i: int|
            0 <= i < INITIAL_SIZE && i != slot_of(digest_of(k), INITIAL_SIZE as nat)
                ==> #[trigger] t1.chain(i) == t0.chain(i),
    ensures
        t1@ == t0@,
        forall|i: int| 0 <= i < INITIAL_SIZE ==> #[trigger] t1.chain(i) == t0.chain(i),
{
    assert(t1@ =~= t0@);
    let d = digest_of(k);
    let b = slot_of(d, INITIAL_SIZE as nat);
    let c = t0.chain(b);
    if exists|j: int| 0 <= j < c.len() && c[j].hashed_key == d {
        let j = choose|j: int| 0 <= j < c.len() && c[j].hashed_key == d;
        assert(t0.chains@[b] is Some);
        lemma_chain_lookup_at(c, j);
        assert(t0.lookup(d) is Some);
    }
}

proof fn lemma_never_inserted_prefix(
    ts: Seq<HashTable>,
    ks: Seq<Seq<char>>,
    vs: Seq<Option<i32>>,
    k: Seq<char>,
    n: int,
)
    requires
        ks.len() == vs.len(),
        ts.len() == ks.len() + 1,
        0 <= n <= ks.len(),
        ts[0]@ == Map::<u64, i32>::empty(),
        forall|i: int|
            0 <= i < ks.len() && vs[i] is Some ==> ts[i + 1]@ == ts[i]@.insert(
                digest_of(ks[i]),
                vs[i]->Some_0,
            ),
        forall|i: int|
            0 <= i < ks.len() && vs[i] is None ==> ts[i + 1]@ == ts[i]@.remove(digest_of(ks[i])),
        forall|i: int| 0 <= i < ks.len() && vs[i] is Some ==> digest_of(ks[i]) != digest_of(k),
    ensures
        !ts[n]@.contains_key(digest_of(k)),
    decreases n,
{
    if n > 0 {
        lemma_never_inserted_prefix(ts, ks, vs, k, n - 1);
        if vs[n - 1] is Some {
            assert(ts[n]@ == ts[n - 1]@.insert(digest_of(ks[n - 1]), vs[n - 1]->Some_0));
        } else {
            assert(ts[n]@ == ts[n - 1]@.remove(digest_of(ks[n - 1])));
        }
    }
}

/// Starting from an empty table, through any upserts and deletes, a key
/// that was never upserted is not found. Keys are told apart by digest, so
/// no upserted key may share its digest.
pub proof fn law_never_inserted(
    ts: Seq<HashTable>,
    ks: Seq<Seq<char>>,
    vs: Seq<Option<i32>>,
    k: Seq<char>,
)
    requires
        ks.len() == vs.len(),
        ts.len() == ks.len() + 1,
        ts[0]@ == Map::<u64, i32>::empty(),
        forall|i: int|
            0 <= i < ks.len() && vs[i] is Some ==> ts[i + 1]@ == ts[i]@.insert(
                digest_of(ks[i]),
                vs[i]->Some_0,
            ),
        forall|i: int|
            0 <= i < ks.len() && vs[i] is None ==> ts[i + 1]@ == ts[i]@.remove(digest_of(ks[i])),
        forall|i: int| 0 <= i < ks.len() && vs[i] is Some ==> digest_of(ks[i]) != digest_of(k),
    ensures
        map_get(ts[ks.len() as int]@, digest_of(k)) is None,
{
    lemma_never_inserted_prefix(ts, ks, vs, k, ks.len() as int);
}

/// Deleting a key a second time changes no chain.
pub proof fn law_delete_twice(t0: HashTable, t1: HashTable, t2: HashTable, k: Seq<char>)
    requires
        t1.wf(),
        t1@ == t0@.remove(digest_of(k)),
        t2@ == t1@.remove(digest_of(k)),
        t2.chain(slot_of(digest_of(k), INITIAL_SIZE as nat)) == chain_deleted(
            t1.chain(slot_of(digest_of(k), INITIAL_SIZE as nat)),
            digest_of(k),
        ),
        forall|i: int|
            0 <= i < INITIAL_SIZE && i != slot_of(digest_of(k), INITIAL_SIZE as nat)
                ==> #[trigger] t2.chain(i) == t1.chain(i),
    ensures
        t2@ == t1@,
        forall|i: int| 0 <= i < INITIAL_SIZE ==> #[trigger] t2.chain(i) == t1.chain(i),
{
    law_delete_missing(t1, t2, k);
}

} // verus!
