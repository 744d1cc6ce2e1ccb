//! The encoder's hash table: an open-addressing table with linear probing
//! from 20-bit keys (12-bit prefix code, 8-bit pixel) to 12-bit codes.
use vstd::prelude::*;

verus! {

/// Number of slots (13-bit hash).
pub const HT_SIZE: usize = 8192;
/// Mask of a 13-bit hash value.
pub const HT_KEY_MASK: u32 = 0x1FFF;
/// The key stored in an empty slot.
pub const HT_EMPTY_KEY: u32 = 0xFFFFF;

/// A slot holds its key in the upper 20 bits and its code in the lower 12.
pub open spec fn slot_key(l: u32) -> u32 {
    l >> 12u32
}

pub open spec fn slot_code(l: u32) -> i32 {
    (l & 0x0FFF) as i32
}

/// The hash of a key: its upper bits folded onto its lower 13 bits.
pub open spec fn spec_key_item(item: u32) -> u32 {
    ((item >> 12u32) ^ item) & HT_KEY_MASK
}

fn ht_get_key(l: u32) -> (r: u32)
    ensures
        r == slot_key(l),
{
    l >> 12u32
}

fn ht_get_code(l: u32) -> (r: i32)
    ensures
        r == slot_code(l),
        0 <= r < 4096,
{
    assert((l & 0x0FFF) < 4096) by (bit_vector);
    (l & 0x0FFF) as i32
}

fn ht_put_key(l: u32) -> (r: u32)
    ensures
        r == l << 12u32,
{
    l << 12u32
}

fn ht_put_code(l: i32) -> (r: u32)
    ensures
        r == (l as u32) & 0x0FFF,
{
    (l as u32) & 0x0FFF
}

/// Generate a hash key from the given unique key.
fn key_item(item: u32) -> (r: u32)
    ensures
        r == spec_key_item(item),
        r < HT_SIZE,
{
    assert((((item >> 12u32) ^ item) & 0x1FFFu32) < 8192) by (bit_vector);
    ((item >> 12u32) ^ item) & HT_KEY_MASK
}

/// The slot reached `d` steps after slot `start`, wrapping around.
pub open spec fn probe(start: int, d: int) -> int {
    (start + d) % (HT_SIZE as int)
}

/// How many steps lead from slot `a` to slot `b`, wrapping around.
pub open spec fn dist(a: int, b: int) -> int {
    (b - a + HT_SIZE as int) % (HT_SIZE as int)
}

pub open spec fn home(k: u32) -> int {
    spec_key_item(k) as int
}

pub open spec fn occupied(t: Seq<u32>, i: int) -> bool {
    slot_key(t[i]) != HT_EMPTY_KEY
}

/// The table holds `k` in slot `i`.
pub open spec fn key_at(t: Seq<u32>, i: int, k: u32) -> bool {
    0 <= i < HT_SIZE && occupied(t, i) && slot_key(t[i]) == k
}

/// The number of occupied slots among the first `n`.
pub open spec fn count_occupied(t: Seq<u32>, n: int) -> nat
    decreases n,
{
    if n <= 0 {
        0
    } else {
        count_occupied(t, n - 1) + if occupied(t, n - 1) { 1nat } else { 0nat }
    }
}

/// Every slot on the probe path from a key's hash to the slot holding it is occupied.
pub open spec fn chains_closed(t: Seq<u32>) -> bool {
    forall|i: int, d: int|
        0 <= i < HT_SIZE && occupied(t, i) && 0 <= d < dist(home(slot_key(t[i])), i)
            ==> #[trigger] occupied(t, probe(home(slot_key(t[i])), d))
}

/// No key is held twice.
pub open spec fn keys_unique(t: Seq<u32>) -> bool {
    forall|i: int, j: int|
        0 <= i < HT_SIZE && 0 <= j < HT_SIZE && occupied(t, i) && occupied(t, j)
            && #[trigger] slot_key(t[i]) == #[trigger] slot_key(t[j]) ==> i == j
}

/// The table's contents as a map from keys to codes.
pub open spec fn table_map(t: Seq<u32>) -> Map<u32, i32> {
    Map::new(
        |k: u32| exists|i: int| key_at(t, i, k),
        |k: u32| slot_code(t[choose|i: int| key_at(t, i, k)]),
    )
}

/// Slot `s` is the first free slot on the probe path from slot `start`.
pub open spec fn first_free(t: Seq<u32>, start: int, s: int) -> bool {
    &&& 0 <= s < HT_SIZE
    &&& !occupied(t, s)
    &&& forall|dd: int| 0 <= dd < dist(start, s) ==> #[trigger] occupied(t, probe(start, dd))
}

/// A hash table of `HT_SIZE` slots; a slot whose key is `HT_EMPTY_KEY` is free.
#[derive(Debug)]
pub struct GifHashTableType {
    pub h_table: Vec<u32>,
}

impl View for GifHashTableType {
    type V = Map<u32, i32>;

    open spec fn view(&self) -> Map<u32, i32> {
        table_map(self.h_table@)
    }
}

impl GifHashTableType {
    /// The table has its `HT_SIZE` slots, at least one of them free, every key
    /// reachable by probing from its hash, and no key twice.
    pub open spec fn wf(&self) -> bool {
        &&& self.h_table@.len() == HT_SIZE
        &&& count_occupied(self.h_table@, HT_SIZE as int) < HT_SIZE
        &&& chains_closed(self.h_table@)
        &&& keys_unique(self.h_table@)
    }

    /// The number of entries in the table.
    pub open spec fn size(&self) -> nat {
        count_occupied(self.h_table@, HT_SIZE as int)
    }

    /// An empty table.
    pub fn new() -> (r: GifHashTableType)
        ensures
            r.wf(),
            r@ == Map::<u32, i32>::empty(),
            r.size() == 0,
            r.h_table@.len() == HT_SIZE,
            forall|k: int| 0 <= k < HT_SIZE ==> #[trigger] r.h_table@[k] == 0xFFFFFFFFu32,
    {
        let mut v: Vec<u32> = Vec::new();
        let mut i: usize = 0;
        while i < HT_SIZE
            invariant
                i <= HT_SIZE,
                v@.len() == i,
                forall|k: int| 0 <= k < i ==> v@[k] == 0xFFFFFFFFu32,
            decreases HT_SIZE - i,
        {
            v.push(0xFFFFFFFF);
            i = i + 1;
        }
        let mut ht = GifHashTableType { h_table: v };
        ht.clear();
        ht
    }

    /// Clear the hash table to an empty state.
    pub fn clear(&mut self)
        requires
            old(self).h_table@.len() == HT_SIZE,
        ensures
            final(self).wf(),
            final(self)@ == Map::<u32, i32>::empty(),
            final(self).size() == 0,
            final(self).h_table@.len() == HT_SIZE,
            forall|k: int| 0 <= k < HT_SIZE ==> #[trigger] final(self).h_table@[k] == 0xFFFFFFFFu32,
    {
        let mut i: usize = 0;
        while i < HT_SIZE
            invariant
                i <= HT_SIZE,
                self.h_table@.len() == HT_SIZE,
                forall|k: int| 0 <= k < i ==> self.h_table@[k] == 0xFFFFFFFFu32,
            decreases HT_SIZE - i,
        {
            self.h_table.set(i, 0xFFFFFFFF);
            i = i + 1;
        }
        proof {
            let t = self.h_table@;
            assert(slot_key(0xFFFFFFFFu32) == HT_EMPTY_KEY) by (bit_vector);
            assert forall|k: int| 0 <= k < HT_SIZE implies !occupied(t, k) by {
                assert(t[k] == 0xFFFFFFFFu32);
            }
            lemma_count_empty(t, HT_SIZE as int);
            assert(table_map(t) =~= Map::<u32, i32>::empty());
        }
    }

    /// Insert a new key, not present yet, with its code.
    pub fn insert(&mut self, key: u32, code: i32)
        requires
            old(self).wf(),
            key < HT_EMPTY_KEY,
            !old(self)@.contains_key(key),
            old(self).size() + 1 < HT_SIZE,
        ensures
            final(self).wf(),
            final(self)@ == old(self)@.insert(key, ((code as u32) & 0x0FFF) as i32),
            final(self).size() == old(self).size() + 1,
            exists|s: int| #[trigger] first_free(old(self).h_table@, home(key), s)
                && final(self).h_table@ == old(self).h_table@.update(s, (key << 12u32) | ((code as u32) & 0x0FFF)),
    {
        let ghost t0 = self.h_table@;
        let ghost hm = home(key);
        let ghost e = lemma_some_free(t0);
        let mut h_key = key_item(key) as usize;
        let ghost mut d: int = 0;
        assert(probe(hm, 0) == hm);
        while ht_get_key(self.h_table[h_key]) != HT_EMPTY_KEY
            invariant
                self.h_table@ == t0,
                t0.len() == HT_SIZE,
                0 <= e < HT_SIZE,
                !occupied(t0, e),
                0 <= hm < HT_SIZE,
                0 <= d <= dist(hm, e),
                h_key == probe(hm, d),
                forall|dd: int| 0 <= dd < d ==> #[trigger] occupied(t0, probe(hm, dd)),
            decreases dist(hm, e) - d,
        {
            assert(h_key != e);
            proof {
                lemma_probe_dist(hm, d);
                lemma_probe_dist(hm, dist(hm, e));
            }
            proof {
                lemma_next_slot(h_key);
            }
            h_key = (h_key + 1) & (HT_KEY_MASK as usize);
            proof {
                d = d + 1;
            }
        }
        let v = ht_put_key(key) | ht_put_code(code);
        proof {
            lemma_slot_fields(key, code);
        }
        self.h_table.set(h_key, v);
        proof {
            lemma_probe_dist(hm, d);
            assert(first_free(t0, hm, h_key as int));
            lemma_insert_keeps(t0, h_key as int, v, key, hm, d);
        }
    }

    /// The code stored for `key`, or `None` if the key is absent.
    pub fn exists_key(&self, key: u32) -> (r: Option<i32>)
        requires
            self.wf(),
        ensures
            r == (if self@.contains_key(key) { Some(self@[key]) } else { None::<i32> }),
    {
        let ghost t = self.h_table@;
        let ghost hm = home(key);
        let ghost e = lemma_some_free(t);
        let mut h_key = key_item(key) as usize;
        let ghost mut d: int = 0;
        assert(probe(hm, 0) == hm);
        loop
            invariant
                self.wf(),
                self.h_table@ == t,
                0 <= e < HT_SIZE,
                !occupied(t, e),
                0 <= hm < HT_SIZE,
                hm == home(key),
                0 <= d <= dist(hm, e),
                h_key == probe(hm, d),
                forall|dd: int| 0 <= dd < d ==> #[trigger] occupied(t, probe(hm, dd))
                    && slot_key(t[probe(hm, dd)]) != key,
            decreases dist(hm, e) - d,
        {
            let ht_key = ht_get_key(self.h_table[h_key]);
            if ht_key == HT_EMPTY_KEY {
                proof {
                    lemma_absent(t, key, hm, d);
                }
                return None;
            }
            if key == ht_key {
                proof {
                    lemma_found(t, key, h_key as int);
                }
                return Some(ht_get_code(self.h_table[h_key]));
            }
            assert(h_key != e);
            proof {
                lemma_probe_dist(hm, d);
                lemma_probe_dist(hm, dist(hm, e));
            }
            proof {
                lemma_next_slot(h_key);
            }
            h_key = (h_key + 1) & (HT_KEY_MASK as usize);
            proof {
                d = d + 1;
            }
        }
    }
}

proof fn lemma_next_slot(h: usize)
    requires
        h < HT_SIZE,
    ensures
        ((h + 1) as usize) & 0x1FFFusize == (h + 1) % (HT_SIZE as int),
{
    assert(h < 8192 ==> ((h + 1) as usize) & 0x1FFFusize == (h + 1) % 8192) by (bit_vector);
}

proof fn lemma_probe_dist(a: int, d: int)
    requires
        0 <= a < HT_SIZE,
        0 <= d < HT_SIZE,
    ensures
        0 <= probe(a, d) < HT_SIZE,
        dist(a, probe(a, d)) == d,
        probe(a, d + 1) == (probe(a, d) + 1) % (HT_SIZE as int),
{
}

proof fn lemma_dist_probe(a: int, b: int)
    requires
        0 <= a < HT_SIZE,
        0 <= b < HT_SIZE,
    ensures
        0 <= dist(a, b) < HT_SIZE,
        probe(a, dist(a, b)) == b,
{
}

proof fn lemma_count_empty(t: Seq<u32>, n: int)
    requires
        0 <= n <= t.len(),
        forall|k: int| 0 <= k < n ==> !occupied(t, k),
    ensures
        count_occupied(t, n) == 0,
    decreases n,
{
    if n > 0 {
        lemma_count_empty(t, n - 1);
    }
}

proof fn lemma_count_has_free(t: Seq<u32>, n: int) -> (e: int)
    requires
        0 <= n <= t.len(),
        count_occupied(t, n) < n,
    ensures
        0 <= e < n,
        !occupied(t, e),
    decreases n,
{
    if !occupied(t, n - 1) {
        n - 1
    } else {
        lemma_count_has_free(t, n - 1)
    }
}

/// A free slot of a well-formed table.
proof fn lemma_some_free(t: Seq<u32>) -> (e: int)
    requires
        t.len() == HT_SIZE,
        count_occupied(t, HT_SIZE as int) < HT_SIZE,
    ensures
        0 <= e < HT_SIZE,
        !occupied(t, e),
{
    lemma_count_has_free(t, HT_SIZE as int)
}

proof fn lemma_count_update(t: Seq<u32>, j: int, v: u32, n: int)
    requires
        0 <= j < t.len(),
        0 <= n <= t.len(),
        !occupied(t, j),
        slot_key(v) != HT_EMPTY_KEY,
    ensures
        count_occupied(t.update(j, v), n) == count_occupied(t, n) + if j < n { 1nat } else { 0nat },
    decreases n,
{
    if n > 0 {
        lemma_count_update(t, j, v, n - 1);
    }
}

proof fn lemma_slot_fields(key: u32, code: i32)
    requires
        key < HT_EMPTY_KEY,
    ensures
        slot_key((key << 12u32) | ((code as u32) & 0x0FFF)) == key,
        slot_code((key << 12u32) | ((code as u32) & 0x0FFF)) == ((code as u32) & 0x0FFF) as i32,
{
    let c = code as u32;
    assert(key < 0xFFFFF ==> ((key << 12u32) | (c & 0x0FFF)) >> 12u32 == key) by (bit_vector);
    assert((((key << 12u32) | (c & 0x0FFF)) & 0x0FFF) == (c & 0x0FFF)) by (bit_vector);
}

proof fn lemma_found(t: Seq<u32>, key: u32, h: int)
    requires
        t.len() == HT_SIZE,
        keys_unique(t),
        0 <= h < HT_SIZE,
        occupied(t, h),
        slot_key(t[h]) == key,
    ensures
        table_map(t).contains_key(key),
        table_map(t)[key] == slot_code(t[h]),
{
    assert(key_at(t, h, key));
    let c = choose|i: int| key_at(t, i, key);
    assert(key_at(t, c, key));
    assert(slot_key(t[c]) == slot_key(t[h]));
}

proof fn lemma_absent(t: Seq<u32>, key: u32, hm: int, d: int)
    requires
        t.len() == HT_SIZE,
        chains_closed(t),
        0 <= hm < HT_SIZE,
        hm == home(key),
        0 <= d < HT_SIZE,
        !occupied(t, probe(hm, d)),
        forall|dd: int| 0 <= dd < d ==> #[trigger] occupied(t, probe(hm, dd))
            && slot_key(t[probe(hm, dd)]) != key,
    ensures
        !table_map(t).contains_key(key),
{
    if exists|j: int| key_at(t, j, key) {
        let j = choose|j: int| key_at(t, j, key);
        lemma_dist_probe(hm, j);
        let dj = dist(hm, j);
        if dj < d {
            assert(occupied(t, probe(hm, dj)));
        } else if dj == d {
        } else {
            assert(occupied(t, probe(home(slot_key(t[j])), d)));
        }
    }
}

proof fn lemma_insert_keeps(t0: Seq<u32>, h: int, v: u32, key: u32, hm: int, d: int)
    requires
        t0.len() == HT_SIZE,
        count_occupied(t0, HT_SIZE as int) + 1 < HT_SIZE,
        chains_closed(t0),
        keys_unique(t0),
        !table_map(t0).contains_key(key),
        key < HT_EMPTY_KEY,
        0 <= h < HT_SIZE,
        !occupied(t0, h),
        slot_key(v) == key,
        hm == home(key),
        0 <= hm < HT_SIZE,
        0 <= d < HT_SIZE,
        h == probe(hm, d),
        forall|dd: int| 0 <= dd < d ==> #[trigger] occupied(t0, probe(hm, dd)),
    ensures
        ({
            let t1 = t0.update(h, v);
            &&& count_occupied(t1, HT_SIZE as int) == count_occupied(t0, HT_SIZE as int) + 1
            &&& chains_closed(t1)
            &&& keys_unique(t1)
            &&& table_map(t1) == table_map(t0).insert(key, slot_code(v))
        }),
{
    let t1 = t0.update(h, v);
    lemma_count_update(t0, h, v, HT_SIZE as int);
    lemma_probe_dist(hm, d);
    assert forall|i: int, dd: int|
        0 <= i < HT_SIZE && occupied(t1, i) && 0 <= dd < dist(home(slot_key(t1[i])), i)
            implies #[trigger] occupied(t1, probe(home(slot_key(t1[i])), dd)) by {
        if i == h {
            assert(occupied(t0, probe(hm, dd)));
        } else {
            assert(occupied(t0, probe(home(slot_key(t0[i])), dd)));
        }
    }
    assert forall|i: int, j: int|
        0 <= i < HT_SIZE && 0 <= j < HT_SIZE && occupied(t1, i) && occupied(t1, j)
            && #[trigger] slot_key(t1[i]) == #[trigger] slot_key(t1[j]) implies i == j by {
        if i == h && j != h {
            assert(key_at(t0, j, key));
        } else if j == h && i != h {
            assert(key_at(t0, i, key));
        }
    }
    assert forall|k: u32| #[trigger] table_map(t1).contains_key(k) == table_map(t0).insert(key, slot_code(v)).contains_key(k) by {
        if k == key {
            assert(key_at(t1, h, key));
        } else {
            if exists|i: int| key_at(t1, i, k) {
                let i = choose|i: int| key_at(t1, i, k);
                assert(key_at(t0, i, k));
            }
            if exists|i: int| key_at(t0, i, k) {
                let i = choose|i: int| key_at(t0, i, k);
                assert(key_at(t1, i, k));
            }
        }
    }
    assert forall|k: u32| #[trigger] table_map(t1).contains_key(k) implies table_map(t1)[k]
        == table_map(t0).insert(key, slot_code(v))[k] by {
        let i1 = choose|i: int| key_at(t1, i, k);
        assert(key_at(t1, i1, k));
        if k == key {
            assert(key_at(t1, h, key));
            assert(slot_key(t1[i1]) == slot_key(t1[h]));
        } else {
            assert(i1 != h);
            assert(key_at(t0, i1, k));
            let i0 = choose|i: int| key_at(t0, i, k);
            assert(key_at(t0, i0, k));
            assert(slot_key(t0[i0]) == slot_key(t0[i1]));
        }
    }
    assert(table_map(t1) =~= table_map(t0).insert(key, slot_code(v)));
}

/// After inserting a key with a code, looking the key up gives the code back
/// (reduced to its 12 bits), and every other key keeps what it had.
pub proof fn lemma_insert_then_lookup(before: Map<u32, i32>, after: Map<u32, i32>, key: u32, code: i32, other: u32)
    requires
        after == before.insert(key, ((code as u32) & 0x0FFF) as i32),
        other != key,
    ensures
        after.contains_key(key),
        after[key] == ((code as u32) & 0x0FFF) as i32,
        after.contains_key(other) == before.contains_key(other),
        before.contains_key(other) ==> after[other] == before[other],
{
}

} // verus!
