//! The bounded term hash table: an open-addressed, linear-probed bucket
//! array sized once at construction, with variable-length term bytes stored
//! out of line in an append-only arena. Insertion issues unordered term ids
//! in first-insertion order; the table never resizes, and when every bucket
//! is taken the owning segment writer must flush.

use vstd::prelude::*;
use vstd::arithmetic::div_mod::lemma_small_mod;
use vstd::arithmetic::div_mod::lemma_mod_multiples_vanish;
use crate::error::TantivyError;
use crate::postings::table_size_spec;

verus! {

/// `2^n`.
pub open spec fn pow2_spec(n: nat) -> nat
    decreases n,
{
    if n == 0 {
        1
    } else {
        2 * pow2_spec((n - 1) as nat)
    }
}

pub proof fn lemma_pow2_monotone(a: nat, b: nat)
    requires
        a <= b,
    ensures
        pow2_spec(a) <= pow2_spec(b),
    decreases b,
{
    if a < b {
        lemma_pow2_monotone(a, (b - 1) as nat);
    }
}

/// One step of the FNV-1a hash.
pub open spec fn fnv_step(h: u64, b: u8) -> u64 {
    (((h ^ (b as u64)) as nat * 0x100000001b3) % 0x10000000000000000) as u64
}

/// FNV-1a over a byte string; any deterministic function would do, the
/// probing proofs rely only on hashes of equal keys being equal.
pub open spec fn fnv_hash(s: Seq<u8>) -> u64
    decreases s.len(),
{
    if s.len() == 0 {
        0xcbf29ce484222325u64
    } else {
        fnv_step(fnv_hash(s.drop_last()), s.last())
    }
}

/// Computes the FNV-1a hash of `key`.
#[verifier::loop_isolation(false)]
fn hash_bytes(key: &[u8]) -> (r: u64)
    ensures
        r == fnv_hash(key@),
{
    let mut h: u64 = 0xcbf29ce484222325u64;
    let mut i: usize = 0;
    while i < key.len()
        invariant
            i <= key@.len(),
            h == fnv_hash(key@.subrange(0, i as int)),
        decreases key@.len() - i,
    {
        h = (h ^ (key[i] as u64)).wrapping_mul(0x100000001b3u64);
        i = i + 1;
        proof {
            let sub = key@.subrange(0, i as int);
            assert(sub.drop_last() =~= key@.subrange(0, i - 1));
            assert(sub.last() == key@[i - 1]);
        }
    }
    proof {
        assert(key@.subrange(0, key@.len() as int) =~= key@);
    }
    h
}

/// The number of empty buckets.
pub open spec fn count_zeros(s: Seq<u32>) -> int
    decreases s.len(),
{
    if s.len() == 0 {
        0
    } else {
        count_zeros(s.drop_last()) + if s.last() == 0u32 {
            1int
        } else {
            0int
        }
    }
}

proof fn lemma_count_zeros_nonneg(s: Seq<u32>)
    ensures
        count_zeros(s) >= 0,
    decreases s.len(),
{
    if s.len() > 0 {
        lemma_count_zeros_nonneg(s.drop_last());
    }
}

proof fn lemma_count_zeros_update(s: Seq<u32>, i: int, v: u32)
    requires
        0 <= i < s.len(),
        s[i] == 0,
        v != 0,
    ensures
        count_zeros(s.update(i, v)) == count_zeros(s) - 1,
    decreases s.len(),
{
    if i == s.len() - 1 {
        assert(s.update(i, v).drop_last() =~= s.drop_last());
        assert(s.update(i, v).last() == v);
    } else {
        assert(s.update(i, v).drop_last() =~= s.drop_last().update(i, v));
        assert(s.update(i, v).last() == s.last());
        lemma_count_zeros_update(s.drop_last(), i, v);
    }
}

proof fn lemma_count_zeros_none(s: Seq<u32>)
    requires
        forall|i: int| 0 <= i < s.len() ==> s[i] != 0,
    ensures
        count_zeros(s) == 0,
    decreases s.len(),
{
    if s.len() > 0 {
        lemma_count_zeros_none(s.drop_last());
    }
}

/// The bucket visited at probe distance `j` for hash `h`.
pub open spec fn probe_slot(h: u64, j: int, cap: int) -> int {
    ((h as int % cap) + j) % cap
}

/// Compares a region of the arena against `key`.
#[verifier::loop_isolation(false)]
fn region_eq(arena: &Vec<u8>, start: usize, len: usize, key: &[u8]) -> (r: bool)
    requires
        start + len <= arena@.len(),
    ensures
        r == (arena@.subrange(start as int, start as int + len as int) == key@),
{
    let ghost region = arena@.subrange(start as int, start as int + len as int);
    let alen = arena.len();
    if len != key.len() {
        proof {
            assert(region.len() != key@.len());
        }
        return false;
    }
    let mut i: usize = 0;
    while i < len
        invariant
            i <= len,
            start + len <= alen,
            alen == arena@.len(),
            len == key@.len(),
            region == arena@.subrange(start as int, start as int + len as int),
            forall|j: int| 0 <= j < i ==> region[j] == key@[j],
        decreases len - i,
    {
        if arena[start + i] != key[i] {
            proof {
                assert(region[i as int] != key@[i as int]);
            }
            return false;
        }
        i = i + 1;
    }
    proof {
        assert(region =~= key@);
    }
    true
}

/// The open-addressed term hash table.
pub struct TermHashMap {
    num_bits: usize,
    table: Vec<u32>,
    arena: Vec<u8>,
    entries: Vec<(usize, usize)>,
    dists: Ghost<Seq<int>>,
}

impl TermHashMap {
    /// The bucket count.
    pub closed spec fn cap_spec(&self) -> int {
        self.table@.len() as int
    }

    /// The number of bits the bucket count is a power of.
    pub closed spec fn num_bits_spec(&self) -> usize {
        self.num_bits
    }

    /// The key stored for unordered id `id`.
    pub closed spec fn key_at(&self, id: int) -> Seq<u8> {
        self.arena@.subrange(
            self.entries@[id].0 as int,
            self.entries@[id].0 + self.entries@[id].1,
        )
    }

    /// The distinct keys, in first-insertion order: the key of unordered id
    /// `i` is `keys()[i]`.
    pub closed spec fn keys(&self) -> Seq<Seq<u8>> {
        Seq::new(self.entries@.len(), |i: int| self.key_at(i))
    }

    /// The probing chain of `id` is intact: its bucket holds `id + 1` at
    /// distance `dists[id]`, and every earlier bucket of the chain is taken
    /// by some other key.
    spec fn chain_ok(&self, id: int) -> bool {
        let d = self.dists@[id];
        let h = fnv_hash(self.key_at(id));
        &&& 0 <= d < self.cap_spec()
        &&& self.table@[probe_slot(h, d, self.cap_spec())] == id + 1
        &&& forall|j: int|
            0 <= j < d ==> self.table@[probe_slot(h, j, self.cap_spec())] != 0 && self.key_at(
                self.table@[probe_slot(h, j, self.cap_spec())] - 1,
            ) != self.key_at(id)
    }

    /// Structural and probing well-formedness.
    pub closed spec fn wf(&self) -> bool {
        &&& 10 <= self.num_bits <= 19
        &&& self.table@.len() == pow2_spec(self.num_bits as nat)
        &&& self.table@.len() <= 0x80000
        &&& self.entries@.len() <= self.table@.len()
        &&& count_zeros(self.table@) == self.cap_spec() - self.entries@.len()
        &&& self.dists@.len() == self.entries@.len()
        &&& forall|id: int|
            0 <= id < self.entries@.len() ==> self.entries@[id].0 + self.entries@[id].1
                <= self.arena@.len()
        &&& forall|s: int|
            0 <= s < self.cap_spec() ==> self.table@[s] == 0 || (0 < self.table@[s]
                && self.table@[s] <= self.entries@.len())
        &&& forall|id: int| 0 <= id < self.entries@.len() ==> self.chain_ok(id)
        &&& forall|i: int, j: int|
            0 <= i < j < self.entries@.len() ==> self.key_at(i) != self.key_at(j)
    }

    /// The bucket-count exponent chosen at construction.
    pub fn num_bits(&self) -> (r: usize)
        ensures
            r == self.num_bits_spec(),
    {
        self.num_bits
    }

    /// The number of distinct terms inserted so far.
    #[verifier::loop_isolation(false)]
    pub fn len(&self) -> (r: usize)
        ensures
            r == self.keys().len(),
    {
        self.entries.len()
    }

    /// The bytes the table and its arenas take: the bucket records, the
    /// key arena, and the per-term entry records.
    pub closed spec fn mem_usage_spec(&self) -> int {
        table_size_spec(self.num_bits as nat) + self.arena@.len() + 16 * (
        self.entries@.len() as int / 16 + 1)
    }

    /// Bytes the table and its arenas take: the modeled bucket records plus
    /// the key arena and the per-term entries, saturating at the address
    /// space.
    #[verifier::loop_isolation(false)]
    pub fn mem_usage(&self) -> (r: usize)
        requires
            self.wf(),
        ensures
            r == if self.mem_usage_spec() > usize::MAX as int {
                usize::MAX as int
            } else {
                self.mem_usage_spec()
            },
            r >= table_size_spec(self.num_bits_spec() as nat),
    {
        let table_bytes = crate::postings::compute_table_size(self.num_bits);
        let r1 = table_bytes.checked_add(self.arena.len());
        match r1 {
            Some(v) => match v.checked_add(16 * (self.entries.len() / 16 + 1)) {
                Some(v2) => v2,
                None => usize::MAX,
            },
            None => usize::MAX,
        }
    }

    /// An empty table of `2^num_bits` buckets.
    #[verifier::loop_isolation(false)]
    pub fn with_num_bits(num_bits: usize) -> (r: TermHashMap)
        requires
            10 <= num_bits <= 19,
        ensures
            r.wf(),
            r.keys() == Seq::<Seq<u8>>::empty(),
            r.num_bits_spec() == num_bits,
    {
        proof {
            lemma_pow2_monotone(num_bits as nat, 19);
            reveal_with_fuel(pow2_spec, 20);
            assert(pow2_spec(19) == 0x80000);
        }
        let mut cap: usize = 1;
        let mut i: usize = 0;
        while i < num_bits
            invariant
                i <= num_bits <= 19,
                cap == pow2_spec(i as nat),
                pow2_spec(num_bits as nat) <= 0x80000,
            decreases num_bits - i,
        {
            proof {
                lemma_pow2_monotone((i + 1) as nat, num_bits as nat);
            }
            cap = cap * 2;
            i = i + 1;
        }
        let mut table: Vec<u32> = Vec::new();
        while table.len() < cap
            invariant
                table@.len() <= cap,
                count_zeros(table@) == table@.len(),
                forall|s: int| 0 <= s < table@.len() ==> table@[s] == 0,
            decreases cap - table@.len(),
        {
            let ghost tpre = table@;
            table.push(0);
            proof {
                assert(table@.drop_last() =~= tpre);
            }
        }
        let r = TermHashMap {
            num_bits,
            table,
            arena: Vec::new(),
            entries: Vec::new(),
            dists: Ghost(Seq::empty()),
        };
        proof {
            assert(r.keys() =~= Seq::<Seq<u8>>::empty());
        }
        r
    }

    /// Finds `key`'s unordered id, inserting it with the next fresh id if it
    /// is new. Fails with `TableFull` only when every bucket is taken by
    /// some other key.
    #[verifier::loop_isolation(false)]
    pub fn lookup_or_insert(&mut self, key: &[u8]) -> (r: Result<u32, TantivyError>)
        requires
            old(self).wf(),
        ensures
            final(self).wf(),
            final(self).num_bits_spec() == old(self).num_bits_spec(),
            final(self).cap_spec() == old(self).cap_spec(),
            match r {
                Ok(id) => {
                    &&& (id as int) < final(self).keys().len()
                    &&& final(self).keys()[id as int] == key@
                    &&& if old(self).keys().contains(key@) {
                        *final(self) == *old(self) && old(self).keys()[id as int] == key@
                    } else {
                        final(self).keys() == old(self).keys().push(key@) && id as int == old(
                            self,
                        ).keys().len()
                    }
                },
                Err(e) => {
                    &&& e == TantivyError::TableFull
                    &&& *final(self) == *old(self)
                    &&& old(self).keys().len() == old(self).cap_spec()
                    &&& !old(self).keys().contains(key@)
                },
            },
    {
        let cap = self.table.len();
        proof {
            lemma_pow2_monotone(10, self.num_bits as nat);
            reveal_with_fuel(pow2_spec, 11);
            assert(pow2_spec(10) == 1024);
        }
        let h = hash_bytes(key);
        let start = (h % (cap as u64)) as usize;
        let ghost capi = cap as int;
        let mut j: usize = 0;
        while j < cap
            invariant
                *self == *old(self),
                j <= cap,
                forall|jj: int|
                    0 <= jj < j ==> self.table@[probe_slot(h, jj, capi)] != 0 && self.key_at(
                        self.table@[probe_slot(h, jj, capi)] - 1,
                    ) != key@,
            decreases cap - j,
        {
            let slot = (start + j) % cap;
            proof {
                assert(slot as int == probe_slot(h, j as int, capi));
            }
            let v = self.table[slot];
            if v == 0 {
                let id_usize = self.entries.len();
                let ghost pre = *self;
                proof {
                    lemma_count_zeros_at(pre.table@, slot as int);
                }
                let start_off = self.arena.len();
                let mut k: usize = 0;
                while k < key.len()
                    invariant
                        k <= key@.len(),
                        self.table@ == pre.table@,
                        self.entries@ == pre.entries@,
                        self.dists@ == pre.dists@,
                        self.num_bits == pre.num_bits,
                        start_off == pre.arena@.len(),
                        self.arena@ == pre.arena@ + key@.subrange(0, k as int),
                    decreases key@.len() - k,
                {
                    self.arena.push(key[k]);
                    k = k + 1;
                    proof {
                        assert(self.arena@ =~= pre.arena@ + key@.subrange(0, k as int));
                    }
                }
                proof {
                    assert(self.arena@ =~= pre.arena@ + key@);
                }
                self.entries.push((start_off, key.len()));
                let idv: u32 = (id_usize as u32) + 1;
                self.table[slot] = idv;
                proof {
                    self.dists@ = pre.dists@.push(j as int);
                }
                proof {
                    let len0 = pre.entries@.len() as int;
                    assert(self.table@ == pre.table@.update(slot as int, idv));
                    // old keys are unchanged: the arena only grew
                    assert forall|id: int| 0 <= id < len0 implies self.key_at(id) == pre.key_at(
                        id,
                    ) by {
                        assert(self.entries@[id] == pre.entries@[id]);
                        assert(self.arena@.subrange(
                            pre.entries@[id].0 as int,
                            pre.entries@[id].0 + pre.entries@[id].1,
                        ) =~= pre.arena@.subrange(
                            pre.entries@[id].0 as int,
                            pre.entries@[id].0 + pre.entries@[id].1,
                        ));
                    }
                    assert(self.key_at(len0) =~= key@);
                    assert(self.keys() =~= pre.keys().push(key@));
                    // the new key was nowhere in the table
                    assert forall|id: int| 0 <= id < len0 implies pre.key_at(id) != key@ by {
                        if pre.key_at(id) == key@ {
                            let d = pre.dists@[id];
                            assert(pre.chain_ok(id));
                            if d < j {
                                assert(pre.table@[probe_slot(h, d, capi)] == id + 1);
                                assert(pre.key_at(pre.table@[probe_slot(h, d, capi)] - 1) != key@);
                                assert(false);
                            } else {
                                assert(pre.table@[probe_slot(h, j as int, capi)] != 0);
                                assert(false);
                            }
                        }
                    }
                    // probing chains survive: only a previously empty bucket
                    // changed, and no chain passes through an empty bucket
                    assert forall|id: int| 0 <= id < len0 + 1 implies self.chain_ok(id) by {
                        if id < len0 {
                            let d = pre.dists@[id];
                            assert(pre.chain_ok(id));
                            assert(self.key_at(id) == pre.key_at(id));
                            let hh = fnv_hash(self.key_at(id));
                            assert(pre.table@[probe_slot(hh, d, capi)] == id + 1);
                            assert(probe_slot(hh, d, capi) != slot as int);
                            assert forall|jj: int| 0 <= jj < d implies self.table@[probe_slot(
                                hh,
                                jj,
                                capi,
                            )] != 0 && self.key_at(
                                self.table@[probe_slot(hh, jj, capi)] - 1,
                            ) != self.key_at(id) by {
                                assert(pre.table@[probe_slot(hh, jj, capi)] != 0);
                                assert(probe_slot(hh, jj, capi) != slot as int);
                            }
                        } else {
                            assert(self.dists@[id] == j as int);
                            assert(self.key_at(id) == key@);
                            assert(self.table@[probe_slot(h, j as int, capi)] == id + 1);
                            assert forall|jj: int| 0 <= jj < j implies self.table@[probe_slot(
                                h,
                                jj,
                                capi,
                            )] != 0 && self.key_at(
                                self.table@[probe_slot(h, jj, capi)] - 1,
                            ) != self.key_at(id) by {
                                assert(pre.table@[probe_slot(h, jj, capi)] != 0);
                                assert(probe_slot(h, jj, capi) != slot as int);
                                assert(self.key_at(self.table@[probe_slot(h, jj, capi)] - 1)
                                    == pre.key_at(pre.table@[probe_slot(h, jj, capi)] - 1));
                            }
                        }
                    }
                    lemma_count_zeros_update(pre.table@, slot as int, idv);
                    let len1 = self.entries@.len() as int;
                    assert(len1 == len0 + 1);
                    assert(self.entries@.len() <= self.table@.len());
                    assert(count_zeros(self.table@) == self.cap_spec() - self.entries@.len());
                    assert(self.dists@.len() == self.entries@.len());
                    assert forall|id: int|
                        0 <= id < len1 implies self.entries@[id].0 + self.entries@[id].1
                        <= self.arena@.len() by {
                        if id < len0 {
                            assert(pre.entries@[id].0 + pre.entries@[id].1 <= pre.arena@.len());
                        }
                    }
                    assert forall|s: int|
                        0 <= s < self.cap_spec() implies self.table@[s] == 0 || (0
                            < self.table@[s] && self.table@[s] <= self.entries@.len()) by {
                        if s != slot as int {
                            assert(self.table@[s] == pre.table@[s]);
                        }
                    }
                    assert forall|i1: int, j1: int|
                        0 <= i1 < j1 < len1 implies self.key_at(i1) != self.key_at(j1) by {
                        if j1 < len0 {
                            assert(pre.key_at(i1) != pre.key_at(j1));
                        } else {
                            assert(pre.key_at(i1) != key@);
                        }
                    }
                    assert(self.wf());
                }
                return Ok(id_usize as u32);
            } else {
                let id = (v - 1) as usize;
                let entry = self.entries[id];
                if region_eq(&self.arena, entry.0, entry.1, key) {
                    proof {
                        assert(self.keys()[id as int] == key@);
                        assert(old(self).keys().contains(key@));
                    }
                    return Ok(v - 1);
                }
            }
            j = j + 1;
        }
        proof {
            assert forall|s: int| 0 <= s < capi implies self.table@[s] != 0 by {
                let st = h as int % capi;
                let jj = if s >= st {
                    s - st
                } else {
                    s + capi - st
                };
                if s >= st {
                    lemma_small_mod(s as nat, capi as nat);
                } else {
                    lemma_mod_multiples_vanish(1, s, capi);
                    lemma_small_mod(s as nat, capi as nat);
                }
                assert(probe_slot(h, jj, capi) == s);
            }
            lemma_count_zeros_none(self.table@);
            if self.keys().contains(key@) {
                let id = choose|id: int| 0 <= id < self.keys().len() && self.keys()[id] == key@;
                let d = self.dists@[id];
                assert(self.chain_ok(id));
                assert(self.table@[probe_slot(h, d, capi)] == id + 1);
                assert(self.key_at(self.table@[probe_slot(h, d, capi)] - 1) != key@);
                assert(false);
            }
        }
        Err(TantivyError::TableFull)
    }
}

proof fn lemma_count_zeros_at(s: Seq<u32>, i: int)
    requires
        0 <= i < s.len(),
        s[i] == 0,
    ensures
        count_zeros(s) >= 1,
    decreases s.len(),
{
    lemma_count_zeros_nonneg(s.drop_last());
    if i < s.len() - 1 {
        lemma_count_zeros_at(s.drop_last(), i);
    }
}

impl TermHashMap {
    /// Copies the key bytes of unordered id `id` out of the arena.
    #[verifier::loop_isolation(false)]
    pub fn key_vec(&self, id: usize) -> (r: Vec<u8>)
        requires
            self.wf(),
            (id as int) < self.keys().len(),
        ensures
            r@ == self.keys()[id as int],
    {
        let entry = self.entries[id];
        let alen = self.arena.len();
        proof {
            assert(entry.0 + entry.1 <= alen);
        }
        let mut r: Vec<u8> = Vec::new();
        let mut i: usize = 0;
        while i < entry.1
            invariant
                i <= entry.1,
                entry.0 + entry.1 <= alen,
                alen == self.arena@.len(),
                r@ == self.arena@.subrange(entry.0 as int, entry.0 + i),
            decreases entry.1 - i,
        {
            r.push(self.arena[entry.0 + i]);
            i = i + 1;
            proof {
                assert(r@ =~= self.arena@.subrange(entry.0 as int, entry.0 + i));
            }
        }
        r
    }

    /// Lists `(key bytes, unordered id)` in first-insertion order.
    #[verifier::loop_isolation(false)]
    pub fn entries_list(&self) -> (r: Vec<(Vec<u8>, u32)>)
        requires
            self.wf(),
        ensures
            r@.len() == self.keys().len(),
            forall|i: int| 0 <= i < r@.len() ==> (#[trigger] r@[i]).1 == i && r@[i].0@ == self.keys()[i],
    {
        let n = self.entries.len();
        let mut r: Vec<(Vec<u8>, u32)> = Vec::new();
        let mut i: usize = 0;
        while i < n
            invariant
                i <= n,
                n == self.keys().len(),
                n <= 0x80000,
                r@.len() == i,
                forall|j: int| 0 <= j < i ==> (#[trigger] r@[j]).1 == j && r@[j].0@ == self.keys()[j],
            decreases n - i,
        {
            let key = self.key_vec(i);
            let ghost kview = key@;
            r.push((key, i as u32));
            i = i + 1;
            proof {
                assert(r@[i - 1].1 == i - 1);
                assert(r@[i - 1].0@ == self.keys()[i - 1]);
            }
        }
        r
    }

    /// Searches for `key` without inserting it.
    #[verifier::loop_isolation(false)]
    pub fn lookup(&self, key: &[u8]) -> (r: Option<u32>)
        requires
            self.wf(),
        ensures
            match r {
                Some(id) => (id as int) < self.keys().len() && self.keys()[id as int] == key@,
                None => !self.keys().contains(key@),
            },
    {
        let cap = self.table.len();
        proof {
            lemma_pow2_monotone(10, self.num_bits as nat);
            reveal_with_fuel(pow2_spec, 11);
            assert(pow2_spec(10) == 1024);
        }
        let h = hash_bytes(key);
        let start = (h % (cap as u64)) as usize;
        let ghost capi = cap as int;
        let mut j: usize = 0;
        while j < cap
            invariant
                j <= cap,
                forall|jj: int|
                    0 <= jj < j ==> self.table@[probe_slot(h, jj, capi)] != 0 && self.key_at(
                        self.table@[probe_slot(h, jj, capi)] - 1,
                    ) != key@,
            decreases cap - j,
        {
            let slot = (start + j) % cap;
            proof {
                assert(slot as int == probe_slot(h, j as int, capi));
            }
            let v = self.table[slot];
            if v == 0 {
                proof {
                    if self.keys().contains(key@) {
                        let id = choose|id: int|
                            0 <= id < self.keys().len() && self.keys()[id] == key@;
                        let d = self.dists@[id];
                        assert(self.chain_ok(id));
                        if d < j {
                            assert(self.table@[probe_slot(h, d, capi)] == id + 1);
                            assert(self.key_at(self.table@[probe_slot(h, d, capi)] - 1) != key@);
                            assert(false);
                        } else {
                            assert(self.table@[probe_slot(h, j as int, capi)] != 0);
                            assert(false);
                        }
                    }
                }
                return None;
            } else {
                let id = (v - 1) as usize;
                let entry = self.entries[id];
                if region_eq(&self.arena, entry.0, entry.1, key) {
                    proof {
                        assert(self.keys()[id as int] == key@);
                    }
                    return Some(v - 1);
                }
            }
            j = j + 1;
        }
        proof {
            if self.keys().contains(key@) {
                let id = choose|id: int| 0 <= id < self.keys().len() && self.keys()[id] == key@;
                let d = self.dists@[id];
                assert(self.chain_ok(id));
                assert(self.table@[probe_slot(h, d, capi)] == id + 1);
                assert(self.key_at(self.table@[probe_slot(h, d, capi)] - 1) != key@);
                assert(false);
            }
        }
        None
    }
}

impl TermHashMap {
    /// A well-formed table's keys are pairwise distinct, and there are at
    /// most as many of them as buckets.
    pub proof fn lemma_wf_facts(&self)
        requires
            self.wf(),
        ensures
            forall|i: int, j: int|
                0 <= i < j < self.keys().len() ==> self.keys()[i] != self.keys()[j],
            self.keys().len() <= 0x80000,
            self.cap_spec() == pow2_spec(self.num_bits_spec() as nat),
    {
    }
}

} // verus!
