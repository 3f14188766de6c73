//! Embedding dedup cache: the embeddings of texts that were seen before, found by a hash.
//!
//! The cache is direct-mapped and of a fixed size: a hash has one slot, the hash modulo the
//! capacity, and whatever comes into a slot takes the place of what was there. The hash zero marks
//! an empty slot and is never stored.

use vstd::prelude::*;
use vstd::utf8::encode_utf8;

verus! {

/// The hash after one more byte.
pub open spec fn fnv1a_step(h: u64, b: u8) -> u64 {
    (h ^ (b as u64)).wrapping_mul(0x100000001b3u64)
}

/// The 64-bit FNV-1a hash of bytes.
pub open spec fn fnv1a_of(bytes: Seq<u8>) -> u64
    decreases bytes.len(),
{
    if bytes.len() == 0 {
        0xcbf29ce484222325
    } else {
        fnv1a_step(fnv1a_of(bytes.drop_last()), bytes.last())
    }
}

/// The 64-bit FNV-1a hash of a text in UTF-8.
pub fn fnv1a(text: &str) -> (r: u64)
    ensures
        r == fnv1a_of(encode_utf8(text@)),
{
    let bytes = text.as_bytes();
    let mut h: u64 = 0xcbf29ce484222325;
    for i in 0..bytes.len()
        invariant
            h == fnv1a_of(bytes@.take(i as int)),
    {
        assert(bytes@.take(i + 1).drop_last() == bytes@.take(i as int));
        h = (h ^ (bytes[i] as u64)).wrapping_mul(0x100000001b3);
    }
    assert(bytes@.take(bytes@.len() as int) == bytes@);
    h
}

/// A slot of the cache: the hash that it holds, zero if none, and the embedding.
pub type Slot<T> = (u64, Seq<T>);

/// The slot of a hash.
pub open spec fn slot_of(hash: u64, capacity: nat) -> int {
    hash as int % capacity as int
}

/// The embedding that is stored for a hash.
pub open spec fn lookup<T>(slots: Seq<Slot<T>>, hash: u64) -> Option<Seq<T>> {
    let slot = slots[slot_of(hash, slots.len())];
    if hash != 0 && slot.0 == hash {
        Some(slot.1)
    } else {
        None
    }
}

/// The slots after an embedding was stored for a hash.
pub open spec fn stored<T>(slots: Seq<Slot<T>>, hash: u64, row: Seq<T>) -> Seq<Slot<T>> {
    if hash == 0 {
        slots
    } else {
        slots.update(slot_of(hash, slots.len()), (hash, row))
    }
}

/// How many slots hold an embedding.
pub open spec fn occupied<T>(slots: Seq<Slot<T>>) -> nat
    decreases slots.len(),
{
    if slots.len() == 0 {
        0
    } else {
        occupied(slots.drop_last()) + if slots.last().0 != 0 {
            1nat
        } else {
            0
        }
    }
}

/// Direct-mapped cache of embeddings.
pub struct EmbedCacheInner<T> {
    keys: Vec<u64>,
    data: Vec<T>,
    capacity: usize,
    hidden_dim: usize,
}

proof fn slot_range(slot: int, capacity: int, hidden_dim: int)
    requires
        0 <= slot < capacity,
        0 <= hidden_dim,
    ensures
        0 <= slot * hidden_dim,
        slot * hidden_dim + hidden_dim <= capacity * hidden_dim,
{
    assert(slot * hidden_dim + hidden_dim <= capacity * hidden_dim) by (nonlinear_arith)
        requires
            0 <= slot < capacity,
            0 <= hidden_dim,
    ;
    assert(0 <= slot * hidden_dim) by (nonlinear_arith)
        requires
            0 <= slot,
            0 <= hidden_dim,
    ;
}

proof fn slots_apart(a: int, b: int, hidden_dim: int)
    requires
        0 <= a < b,
        0 <= hidden_dim,
    ensures
        a * hidden_dim + hidden_dim <= b * hidden_dim,
{
    assert(a * hidden_dim + hidden_dim <= b * hidden_dim) by (nonlinear_arith)
        requires
            0 <= a < b,
            0 <= hidden_dim,
    ;
}

impl<T> EmbedCacheInner<T> {
    #[verifier::type_invariant]
    spec fn well_formed(self) -> bool {
        &&& self.keys@.len() == self.capacity
        &&& self.data@.len() == self.capacity * self.hidden_dim
    }

    /// The number of values of an embedding.
    pub closed spec fn dim(self) -> usize {
        self.hidden_dim
    }

    /// The slots.
    pub closed spec fn slots(self) -> Seq<Slot<T>> {
        Seq::new(
            self.keys@.len(),
            |i: int|
                (
                    self.keys@[i],
                    self.data@.subrange(
                        i * self.hidden_dim,
                        i * self.hidden_dim + self.hidden_dim,
                    ),
                ),
        )
    }
}

impl<T: Copy> EmbedCacheInner<T> {
    /// A cache of empty slots. Their embeddings are filled with `zero`.
    pub fn new(capacity: usize, hidden_dim: usize, zero: T) -> (r: Self)
        requires
            capacity * hidden_dim <= usize::MAX,
        ensures
            r.dim() == hidden_dim,
            r.slots() == Seq::new(
                capacity as nat,
                |i: int| (0u64, Seq::new(hidden_dim as nat, |j: int| zero)),
            ),
    {
        let total: usize = capacity * hidden_dim;
        let mut keys: Vec<u64> = Vec::with_capacity(capacity);
        for i in 0..capacity
            invariant
                keys@ == Seq::new(i as nat, |k: int| 0u64),
        {
            keys.push(0);
        }
        let mut data: Vec<T> = Vec::with_capacity(total);
        for i in 0..total
            invariant
                data@ == Seq::new(i as nat, |k: int| zero),
        {
            data.push(zero);
        }
        let r = EmbedCacheInner { keys, data, capacity, hidden_dim };
        proof {
            assert forall|i: int| 0 <= i < capacity implies r.slots()[i].1 == Seq::new(
                hidden_dim as nat,
                |j: int| zero,
            ) by {
                slot_range(i, capacity as int, hidden_dim as int);
            }
            assert(r.slots() == Seq::new(
                capacity as nat,
                |i: int| (0u64, Seq::new(hidden_dim as nat, |j: int| zero)),
            ));
        }
        r
    }

    /// Copies the embedding that is stored for a hash into `out` and returns true, or returns
    /// false if there is none.
    pub fn get(&self, hash: u64, out: &mut Vec<T>) -> (r: bool)
        requires
            self.slots().len() > 0,
            lookup(self.slots(), hash) is Some ==> old(out)@.len() >= self.dim(),
        ensures
            match lookup(self.slots(), hash) {
                Some(row) => r && final(out)@ == row + old(out)@.skip(self.dim() as int),
                None => !r && final(out)@ == old(out)@,
            },
            final(out)@.len() == old(out)@.len(),
    {
        proof {
            use_type_invariant(self);
        }
        let slot: usize = (hash % (self.capacity as u64)) as usize;
        assert(self.slots()[slot as int].0 == self.keys@[slot as int]);
        if self.keys[slot] == hash && hash != 0 {
            proof {
                slot_range(slot as int, self.capacity as int, self.hidden_dim as int);
            }
            let total: usize = self.data.len();
            let offset: usize = slot * self.hidden_dim;
            let ghost row = self.slots()[slot as int].1;
            for i in 0..self.hidden_dim
                invariant
                    self.well_formed(),
                    offset + self.hidden_dim <= total == self.data@.len(),
                    row == self.data@.subrange(offset as int, offset + self.hidden_dim),
                    old(out)@.len() >= self.hidden_dim,
                    out@ == row.take(i as int) + old(out)@.skip(i as int),
            {
                let ghost before = out@;
                out[i] = self.data[offset + i];
                assert(out@ == row.take(i + 1) + old(out)@.skip(i + 1));
            }
            assert(row.take(self.hidden_dim as int) == row);
            true
        } else {
            false
        }
    }

    /// Stores an embedding for a hash, in place of what was in its slot. Nothing is stored for
    /// the hash zero.
    pub fn insert(&mut self, hash: u64, embedding: &[T])
        requires
            hash != 0 ==> old(self).slots().len() > 0 && embedding@.len() >= old(self).dim(),
        ensures
            final(self).dim() == old(self).dim(),
            final(self).slots() == stored(
                old(self).slots(),
                hash,
                embedding@.take(old(self).dim() as int),
            ),
    {
        proof {
            use_type_invariant(&*self);
        }
        if hash == 0 {
            return;
        }
        let slot: usize = (hash % (self.capacity as u64)) as usize;
        proof {
            slot_range(slot as int, self.capacity as int, self.hidden_dim as int);
        }
        let dim: usize = self.hidden_dim;
        let total: usize = self.data.len();
        let offset: usize = slot * dim;
        let ghost data0 = self.data@;
        let ghost keys0 = self.keys@;
        let ghost row = embedding@.take(dim as int);
        for i in 0..dim
            invariant
                self.well_formed(),
                dim == self.hidden_dim == old(self).hidden_dim,
                self.capacity == old(self).capacity,
                self.keys@ == keys0,
                embedding@.len() >= dim,
                row == embedding@.take(dim as int),
                offset + dim <= total == data0.len(),
                self.data@ == data0.take(offset as int) + row.take(i as int) + data0.skip(
                    offset + i,
                ),
        {
            self.data[offset + i] = embedding[i];
            assert(self.data@ == data0.take(offset as int) + row.take(i + 1) + data0.skip(
                offset + i + 1,
            ));
        }
        assert(row.take(dim as int) == row);
        self.keys[slot] = hash;
        proof {
            let after = stored(old(self).slots(), hash, row);
            assert forall|k: int| 0 <= k < self.capacity implies self.slots()[k] == after[k] by {
                slot_range(k, self.capacity as int, dim as int);
                if k < slot {
                    slots_apart(k, slot as int, dim as int);
                } else if k > slot {
                    slots_apart(slot as int, k, dim as int);
                }
                assert(self.slots()[k].1 == after[k].1);
            }
            assert(self.slots() == after);
        }
    }

    /// How many slots hold an embedding.
    pub fn occupancy(&self) -> (r: usize)
        ensures
            r == occupied(self.slots()),
    {
        let mut n: usize = 0;
        for i in 0..self.keys.len()
            invariant
                n <= i,
                n == occupied(self.slots().take(i as int)),
                self.slots().len() == self.keys@.len(),
        {
            assert(self.slots().take(i + 1).drop_last() == self.slots().take(i as int));
            if self.keys[i] != 0 {
                n += 1;
            }
        }
        assert(self.slots().take(self.slots().len() as int) == self.slots());
        n
    }
}

/// What was stored for a hash is found, until something else comes into its slot.
pub proof fn stored_is_found<T>(slots: Seq<Slot<T>>, hash: u64, row: Seq<T>, other: u64)
    requires
        slots.len() > 0,
        hash != 0,
    ensures
        lookup(stored(slots, hash, row), hash) == Some(row),
        slot_of(other, slots.len()) != slot_of(hash, slots.len()) ==> lookup(
            stored(slots, hash, row),
            other,
        ) == lookup(slots, other),
        slot_of(other, slots.len()) == slot_of(hash, slots.len()) && other != hash ==> lookup(
            stored(slots, hash, row),
            other,
        ) is None,
{
}

/// Nothing is ever found for the hash zero.
pub proof fn zero_is_never_found<T>(slots: Seq<Slot<T>>)
    ensures
        lookup(slots, 0) is None,
{
}

// Laws.

/// The number that undoes a multiplication by the prime, modulo two to the power of 64.
pub const INVERSE: u64 = 0xce965057aff6957b;

/// How often two to the power of 64 goes into the product of the prime and its inverse.
pub const WHOLE: u64 = 0xce9650590f;

/// The hash goes byte by byte to the end of the bytes, however many they are: one more byte is
/// mixed in by exclusive or, and the outcome is multiplied by the prime modulo two to the power of
/// 64.
pub proof fn hash_takes_one_more_byte(s: Seq<u8>, b: u8)
    ensures
        fnv1a_of(s.push(b)) as int == ((fnv1a_of(s) ^ b as u64) as int * 0x100000001b3)
            % 0x1_0000_0000_0000_0000,
        fnv1a_of(Seq::<u8>::empty()) == 0xcbf29ce484222325,
{
    assert(s.push(b).drop_last() == s);
}

proof fn step_can_be_undone(x: u64)
    ensures
        (((x as int * 0x100000001b3) % 0x1_0000_0000_0000_0000) * INVERSE)
            % 0x1_0000_0000_0000_0000 == x,
{
    let m = 0x1_0000_0000_0000_0000int;
    let p = 0x100000001b3int;
    let v = INVERSE as int;
    let y = x as int * p;
    vstd::arithmetic::div_mod::lemma_mul_mod_noop_left(y, v, m);
    assert(p * v == 1 + m * WHOLE as int);
    assert(y * v == x + m * (x * WHOLE)) by (nonlinear_arith)
        requires
            y == x * p,
            p * v == 1 + m * WHOLE as int,
    ;
    vstd::arithmetic::div_mod::lemma_mod_multiples_vanish(x * WHOLE as int, x as int, m);
    assert(m * (x * WHOLE) + x == x + m * (x * WHOLE));
}

/// The hash depends on every byte: bytes of the same length that differ in one place, wherever it
/// is and whatever stands before and behind it, have different hashes.
pub proof fn hash_depends_on_every_byte(s: Seq<u8>, a: u8, b: u8, t: Seq<u8>)
    requires
        a != b,
    ensures
        fnv1a_of(s + seq![a] + t) != fnv1a_of(s + seq![b] + t),
    decreases t.len(),
{
    if t.len() == 0 {
        assert(s + seq![a] + t =~= s.push(a));
        assert(s + seq![b] + t =~= s.push(b));
        hash_takes_one_more_byte(s, a);
        hash_takes_one_more_byte(s, b);
        let h = fnv1a_of(s);
        let x = h ^ a as u64;
        let y = h ^ b as u64;
        assert(x != y) by (bit_vector)
            requires
                a != b,
                x == h ^ a as u64,
                y == h ^ b as u64,
        ;
        step_can_be_undone(x);
        step_can_be_undone(y);
    } else {
        let front = t.drop_last();
        let c = t.last();
        hash_depends_on_every_byte(s, a, b, front);
        let u = s + seq![a] + front;
        let w = s + seq![b] + front;
        assert(s + seq![a] + t =~= u.push(c));
        assert(s + seq![b] + t =~= w.push(c));
        hash_takes_one_more_byte(u, c);
        hash_takes_one_more_byte(w, c);
        let g = fnv1a_of(u);
        let h = fnv1a_of(w);
        let x = g ^ c as u64;
        let y = h ^ c as u64;
        assert(x != y) by (bit_vector)
            requires
                g != h,
                x == g ^ c as u64,
                y == h ^ c as u64,
        ;
        step_can_be_undone(x);
        step_can_be_undone(y);
    }
}

/// Every slot is used: two hashes have the same slot if and only if they are the same modulo the
/// capacity, and each of the numbers below the capacity has the slot of that number.
pub proof fn hashes_are_spread_over_all_slots(g: u64, h: u64, capacity: nat)
    requires
        capacity > 0,
    ensures
        0 <= slot_of(g, capacity) < capacity,
        g < capacity ==> slot_of(g, capacity) == g,
        slot_of(g, capacity) == slot_of(h, capacity) <==> (g as int - h as int) % capacity as int
            == 0,
{
    let c = capacity as int;
    let x = g as int;
    let y = h as int;
    vstd::arithmetic::div_mod::lemma_mod_bound(x, c);
    if x < c {
        vstd::arithmetic::div_mod::lemma_small_mod(g as nat, capacity);
    }
    vstd::arithmetic::div_mod::lemma_mod_equivalence(x, y, c);
}

/// A text is only ever given an embedding that was stored for its own hash: what is found for a
/// hash after something was stored is what was stored, if that was for this hash, and else was
/// found before.
pub proof fn only_what_was_stored_is_found<T>(
    slots: Seq<Slot<T>>,
    stored_for: u64,
    row: Seq<T>,
    hash: u64,
)
    requires
        slots.len() > 0,
    ensures
        lookup(stored(slots, stored_for, row), hash) matches Some(found) ==> hash != 0 && (hash
            == stored_for && found == row || hash != stored_for && lookup(slots, hash) == Some(
            found,
        )),
        stored(slots, stored_for, row).len() == slots.len(),
        (forall|i: int| 0 <= i < slots.len() ==> (#[trigger] slots[i]).0 == 0) ==> lookup(
            slots,
            hash,
        ) is None,
{
    hashes_are_spread_over_all_slots(hash, stored_for, slots.len());
    hashes_are_spread_over_all_slots(stored_for, hash, slots.len());
}

proof fn occupied_after_update<T>(slots: Seq<Slot<T>>, i: int, slot: Slot<T>)
    requires
        0 <= i < slots.len(),
    ensures
        occupied(slots.update(i, slot)) == occupied(slots) - (if slots[i].0 != 0 {
            1int
        } else {
            0
        }) + (if slot.0 != 0 {
            1int
        } else {
            0
        }),
    decreases slots.len(),
{
    let front = slots.drop_last();
    if i == slots.len() - 1 {
        assert(slots.update(i, slot).drop_last() == front);
    } else {
        assert(slots.update(i, slot).drop_last() == front.update(i, slot));
        occupied_after_update(front, i, slot);
    }
}

/// Each hash that is stored in an empty slot counts once, one that takes the place of another does
/// not, and of empty slots none counts.
pub proof fn taken_slots_are_counted<T>(slots: Seq<Slot<T>>, hash: u64, row: Seq<T>)
    requires
        slots.len() > 0,
        hash != 0,
    ensures
        occupied(stored(slots, hash, row)) == occupied(slots) + if slots[hash as int
            % slots.len() as int].0 == 0 {
            1int
        } else {
            0
        },
        (forall|i: int| 0 <= i < slots.len() ==> (#[trigger] slots[i]).0 == 0) ==> occupied(slots)
            == 0,
    decreases slots.len(),
{
    hashes_are_spread_over_all_slots(hash, hash, slots.len());
    occupied_after_update(slots, slot_of(hash, slots.len()), (hash, row));
    if forall|i: int| 0 <= i < slots.len() ==> (#[trigger] slots[i]).0 == 0 {
        none_occupied(slots);
    }
}

proof fn none_occupied<T>(slots: Seq<Slot<T>>)
    requires
        forall|i: int| 0 <= i < slots.len() ==> (#[trigger] slots[i]).0 == 0,
    ensures
        occupied(slots) == 0,
    decreases slots.len(),
{
    if slots.len() > 0 {
        assert(slots[slots.len() - 1].0 == 0);
        assert forall|i: int| 0 <= i < slots.drop_last().len() implies (
        #[trigger] slots.drop_last()[i]).0 == 0 by {
            assert(slots[i].0 == 0);
        }
        none_occupied(slots.drop_last());
    }
}

}
