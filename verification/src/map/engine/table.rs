//! The index table: an open-addressed hash index from hashes to positions.
//!
//! A slot is empty, holds a tombstone, or holds a cached hash together with
//! the position of the record it stands for. Probing is linear: it starts at
//! the hash's home slot and walks forward, wrapping at the end, until it meets
//! an empty slot.

use vstd::prelude::*;
use vstd::set_lib::*;
use crate::map::Bucket;
use crate::map::HashValue;

verus! {

/// The number of slots of a fresh table.
pub const INITIAL_SLOTS: usize = 8;

/// One slot of the index table.
#[derive(Clone, Copy)]
pub enum Slot {
    /// Never used since the table was last built: probing stops here.
    Empty,
    /// Held an entry that was removed: probing walks on.
    Deleted,
    /// The hash and the position of one record.
    Full { hash: HashValue, pos: usize },
}

/// The slot at which probing for `hash` starts in a table of `cap` slots.
spec fn home_of(hash: HashValue, cap: int) -> int {
    (hash as int) % cap
}

/// The slot reached after `j` steps from `home`.
spec fn probe_at(home: int, j: int, cap: int) -> int {
    if home + j < cap {
        home + j
    } else {
        home + j - cap
    }
}

/// The number of steps from `home` to slot `s`.
spec fn probe_dist(home: int, s: int, cap: int) -> int {
    if s >= home {
        s - home
    } else {
        s - home + cap
    }
}

/// Every slot that probing from `home` passes before it arrives at `s` is in use.
spec fn reachable(slots: Seq<Slot>, home: int, s: int) -> bool {
    forall|j: int|
        0 <= j < probe_dist(home, s, slots.len() as int) ==> !((#[trigger] slots[probe_at(
            home,
            j,
            slots.len() as int,
        )]) is Empty)
}

/// The slots that are not empty.
spec fn filled(slots: Seq<Slot>) -> Set<int> {
    Set::new(|s: int| 0 <= s < slots.len() && !(slots[s] is Empty))
}

/// The table invariant, over the slots and the slot that stands for each position.
///
/// Positions and full slots are in bijection, and each full slot can be reached
/// by probing from the home slot of its hash.
spec fn table_inv(slots: Seq<Slot>, slot_of: Seq<int>) -> bool {
    &&& slots.len() >= 1
    &&& forall|p: int|
        0 <= p < slot_of.len() ==> {
            let s = #[trigger] slot_of[p];
            &&& 0 <= s < slots.len()
            &&& slots[s] is Full
            &&& slots[s]->pos == p
            &&& reachable(slots, home_of(slots[s]->hash, slots.len() as int), s)
        }
    &&& forall|s: int|
        0 <= s < slots.len() && (#[trigger] slots[s]) is Full ==> {
            &&& 0 <= slots[s]->pos < slot_of.len()
            &&& slot_of[slots[s]->pos as int] == s
        }
}

/// The hash that the table caches for each position.
spec fn hashes_of(slots: Seq<Slot>, slot_of: Seq<int>) -> Seq<HashValue> {
    Seq::new(slot_of.len(), |p: int| slots[slot_of[p]]->hash)
}

/// The number of probing steps from the home slot of position `p` to its slot.
spec fn rank_of(slots: Seq<Slot>, slot_of: Seq<int>, p: int) -> int {
    probe_dist(home_of(slots[slot_of[p]]->hash, slots.len() as int), slot_of[p], slots.len() as int)
}

/// Among the positions that carry one hash, probing meets a lower position first.
spec fn ordered(slots: Seq<Slot>, slot_of: Seq<int>) -> bool {
    forall|p: int, q: int|
        0 <= p < q < slot_of.len() && slots[slot_of[p]]->hash == slots[slot_of[q]]->hash
            ==> #[trigger] rank_of(slots, slot_of, p) < #[trigger] rank_of(slots, slot_of, q)
}

/// A table that has an empty slot only where another has one keeps what the other can reach.
proof fn lemma_reachable_kept(before: Seq<Slot>, after: Seq<Slot>, home: int, s: int)
    requires
        before.len() == after.len(),
        forall|x: int| 0 <= x < after.len() && (#[trigger] after[x]) is Empty ==> before[x] is Empty,
        0 <= home < before.len(),
        0 <= s < before.len(),
        reachable(before, home, s),
    ensures
        reachable(after, home, s),
{
    let cap = before.len() as int;
    assert forall|j: int| 0 <= j < probe_dist(home, s, cap) implies !((#[trigger] after[probe_at(
        home,
        j,
        cap,
    )]) is Empty) by {
        assert(!(before[probe_at(home, j, cap)] is Empty));
    }
}

/// A full slot after the record at `pos` has left and the later records have moved down by one.
spec fn shift_slot(slot: Slot, pos: int) -> Slot {
    match slot {
        Slot::Full { hash, pos: at } => if at > pos {
            Slot::Full { hash, pos: (at - 1) as usize }
        } else {
            slot
        },
        _ => slot,
    }
}

/// The non-empty slots are finitely many, no more than the table has slots.
proof fn lemma_filled_bound(slots: Seq<Slot>)
    ensures
        filled(slots).finite(),
        filled(slots).len() <= slots.len(),
{
    lemma_int_range(0, slots.len() as int);
    assert(filled(slots).subset_of(set_int_range(0, slots.len() as int)));
    lemma_len_subset(filled(slots), set_int_range(0, slots.len() as int));
}

/// A table with fewer non-empty slots than slots has an empty slot.
proof fn lemma_has_empty(slots: Seq<Slot>) -> (e: int)
    requires
        filled(slots).len() < slots.len(),
    ensures
        0 <= e < slots.len(),
        slots[e] is Empty,
{
    let range = set_int_range(0, slots.len() as int);
    lemma_int_range(0, slots.len() as int);
    lemma_filled_bound(slots);
    assert(filled(slots).subset_of(range));
    if forall|s: int| 0 <= s < slots.len() ==> !(slots[s] is Empty) {
        assert(range.subset_of(filled(slots)));
        assert(filled(slots) =~= range);
    }
    choose|s: int| 0 <= s < slots.len() && slots[s] is Empty
}

/// A table has at least as many non-empty slots as positions.
proof fn lemma_positions_bound(slots: Seq<Slot>, slot_of: Seq<int>)
    requires
        table_inv(slots, slot_of),
    ensures
        slot_of.len() <= filled(slots).len(),
{
    lemma_filled_bound(slots);
    assert(slot_of.no_duplicates()) by {
        assert forall|p: int, q: int|
            0 <= p < slot_of.len() && 0 <= q < slot_of.len() && p != q implies slot_of[p]
            != slot_of[q] by {
            assert(slots[slot_of[p]]->pos == p);
            assert(slots[slot_of[q]]->pos == q);
        }
    }
    slot_of.unique_seq_to_set();
    assert(slot_of.to_set().subset_of(filled(slots))) by {
        assert forall|s: int| slot_of.to_set().contains(s) implies filled(slots).contains(s) by {
            let p = choose|p: int| 0 <= p < slot_of.len() && slot_of[p] == s;
            assert(slots[slot_of[p]] is Full);
        }
    }
    lemma_len_subset(slot_of.to_set(), filled(slots));
}

/// The hashes that the records of an entry store carry, by position.
pub open spec fn cached_hashes<K, V>(entries: Seq<Bucket<K, V>>) -> Seq<HashValue> {
    Seq::new(entries.len(), |p: int| entries[p].hash)
}

/// Files position `pos` under `hash` in the first slot, in probing order,
/// that holds no entry. Returns whether that slot was empty, and the slot.
fn place(slots: &mut Vec<Slot>, Ghost(slot_of): Ghost<Seq<int>>, hash: HashValue, pos: usize) -> (r: (
    bool,
    Ghost<int>,
))
    requires
        table_inv(old(slots)@, slot_of),
        pos == slot_of.len(),
        filled(old(slots)@).len() < old(slots)@.len(),
    ensures
        0 <= r.1@ < old(slots)@.len(),
        !(old(slots)@[r.1@] is Full),
        r.0 == (old(slots)@[r.1@] is Empty),
        final(slots)@ == old(slots)@.update(r.1@, Slot::Full { hash, pos }),
        table_inv(final(slots)@, slot_of.push(r.1@)),
        hashes_of(final(slots)@, slot_of.push(r.1@)) == hashes_of(old(slots)@, slot_of).push(hash),
        filled(final(slots)@) == if r.0 {
            filled(old(slots)@).insert(r.1@)
        } else {
            filled(old(slots)@)
        },
        forall|p: int|
            0 <= p < slot_of.len() ==> #[trigger] rank_of(final(slots)@, slot_of.push(r.1@), p)
                == rank_of(old(slots)@, slot_of, p),
        r.0 && ordered(old(slots)@, slot_of) ==> ordered(final(slots)@, slot_of.push(r.1@)),
{
    let cap = slots.len();
    let home = home_slot(hash, cap);
    let ghost before = slots@;
    let ghost e = lemma_has_empty(before);
    let mut s = home;
    let mut j: usize = 0;
    loop
        invariant
            slots@ == before,
            before == old(slots)@,
            table_inv(before, slot_of),
            pos == slot_of.len(),
            cap == before.len(),
            home == home_of(hash, cap as int),
            home < cap,
            0 <= e < cap,
            before[e] is Empty,
            j < cap,
            s == probe_at(home as int, j as int, cap as int),
            j <= probe_dist(home as int, e, cap as int),
            forall|t: int| 0 <= t < j ==> (#[trigger] before[probe_at(home as int, t, cap as int)]) is Full,
        decreases cap - j,
    {
        let was_empty = match slots[s] {
            Slot::Empty => Some(true),
            Slot::Deleted => Some(false),
            Slot::Full { .. } => None,
        };
        if let Some(was_empty) = was_empty {
            slots[s] = Slot::Full { hash, pos };
            proof {
                let slot = Slot::Full { hash, pos };
                let after = before.update(s as int, slot);
                let grown = slot_of.push(s as int);
                assert(slots@ == after);
                assert forall|p: int| 0 <= p < grown.len() implies {
                    let t = #[trigger] grown[p];
                    &&& 0 <= t < after.len()
                    &&& after[t] is Full
                    &&& after[t]->pos == p
                    &&& reachable(after, home_of(after[t]->hash, after.len() as int), t)
                } by {
                    if p < slot_of.len() {
                        let t = slot_of[p];
                        assert(before[t] is Full);
                        lemma_reachable_kept(before, after, home_of(before[t]->hash, cap as int), t);
                    } else {
                        assert forall|k: int|
                            0 <= k < probe_dist(home as int, s as int, cap as int) implies !((
                        #[trigger] after[probe_at(home as int, k, cap as int)]) is Empty) by {
                            assert(before[probe_at(home as int, k, cap as int)] is Full);
                        }
                    }
                }
                assert forall|t: int| 0 <= t < after.len() && (#[trigger] after[t]) is Full implies {
                    &&& 0 <= after[t]->pos < grown.len()
                    &&& grown[after[t]->pos as int] == t
                } by {
                    if t != s {
                        assert(before[t] is Full);
                    }
                }
                assert(hashes_of(after, grown) =~= hashes_of(before, slot_of).push(hash)) by {
                    assert forall|p: int| 0 <= p < slot_of.len() implies after[grown[p]]->hash
                        == before[slot_of[p]]->hash by {
                        assert(before[slot_of[p]] is Full);
                    }
                }
                if was_empty {
                    assert(filled(after) =~= filled(before).insert(s as int));
                } else {
                    assert(filled(after) =~= filled(before));
                }
                assert forall|p: int| 0 <= p < slot_of.len() implies #[trigger] rank_of(
                    after,
                    grown,
                    p,
                ) == rank_of(before, slot_of, p) by {
                    assert(before[slot_of[p]] is Full);
                }
                if was_empty && ordered(before, slot_of) {
                    assert forall|p: int, q: int|
                        0 <= p < q < grown.len() && after[grown[p]]->hash
                            == after[grown[q]]->hash implies #[trigger] rank_of(after, grown, p)
                        < #[trigger] rank_of(after, grown, q) by {
                        assert(before[slot_of[p]] is Full);
                        if q < slot_of.len() {
                            assert(before[slot_of[q]] is Full);
                            assert(rank_of(before, slot_of, p) < rank_of(before, slot_of, q));
                        } else {
                            let at = slot_of[p];
                            assert(reachable(before, home as int, at));
                            if probe_dist(home as int, at, cap as int) > j {
                                assert(!(before[probe_at(home as int, j as int, cap as int)] is Empty));
                            }
                        }
                    }
                }
            }
            return (was_empty, Ghost(s as int));
        }
        j += 1;
        s = next_slot(s, cap);
    }
}

/// The number of slots in use, tombstones among them, that a table of `cap`
/// slots holds at most before it is rebuilt: seven eighths of its slots.
pub open spec fn max_load(cap: int) -> int {
    cap - cap / 8
}

/// The number of slots with which a table goes into its next insertion. A table
/// whose load would exceed the most it may hold is rebuilt: with twice the
/// slots, as far as a machine word counts, where its positions fill half of
/// them; with as many slots, its tombstones cleared away, where they do not.
pub open spec fn slots_for_next(cap: int, load: int, len: int) -> int {
    if load + 1 > max_load(cap) {
        if len >= cap / 2 {
            if cap <= usize::MAX / 2 {
                2 * cap
            } else {
                usize::MAX as int
            }
        } else {
            cap
        }
    } else {
        cap
    }
}

/// The index table of an ordered map.
pub struct IndexTable {
    slots: Vec<Slot>,
    /// The number of positions, which is the number of full slots.
    len: usize,
    /// The number of slots that are not empty.
    used: usize,
    /// For each position, the slot that stands for it.
    slot_of: Ghost<Seq<int>>,
}

/// The home slot of `hash` in a table of `cap` slots.
fn home_slot(hash: HashValue, cap: usize) -> (home: usize)
    requires
        cap >= 1,
    ensures
        home == home_of(hash, cap as int),
        home < cap,
{
    (hash % (cap as u64)) as usize
}

/// The slot that follows `s` in probing order.
fn next_slot(s: usize, cap: usize) -> (t: usize)
    requires
        s < cap,
    ensures
        t < cap,
        t == if s + 1 < cap { s + 1 } else { 0 },
{
    if s + 1 < cap {
        s + 1
    } else {
        0
    }
}

impl IndexTable {
    /// The invariant of the table.
    pub closed spec fn wf(&self) -> bool {
        &&& table_inv(self.slots@, self.slot_of@)
        &&& self.len == self.slot_of@.len()
        &&& self.used == filled(self.slots@).len()
    }

    /// The hash that the table caches for each position, by position.
    pub closed spec fn hashes(&self) -> Seq<HashValue> {
        hashes_of(self.slots@, self.slot_of@)
    }

    /// The place of position `p` in probing order: the number of steps from
    /// the home slot of its hash to its slot.
    pub closed spec fn rank(&self, p: int) -> int {
        rank_of(self.slots@, self.slot_of@, p)
    }

    /// Among the positions that carry one hash, probing meets a lower position first.
    pub open spec fn in_order(&self) -> bool {
        forall|p: int, q: int|
            0 <= p < q < self.hashes().len() && self.hashes()[p] == self.hashes()[q]
                ==> #[trigger] self.rank(p) < #[trigger] self.rank(q)
    }

    /// The order in which probing meets positions, as the table model has it.
    proof fn lemma_in_order(&self)
        requires
            self.wf(),
        ensures
            self.in_order() == ordered(self.slots@, self.slot_of@),
    {
        if ordered(self.slots@, self.slot_of@) {
            assert forall|p: int, q: int|
                0 <= p < q < self.hashes().len() && self.hashes()[p]
                    == self.hashes()[q] implies #[trigger] self.rank(p) < #[trigger] self.rank(q) by {
                assert(rank_of(self.slots@, self.slot_of@, p) < rank_of(
                    self.slots@,
                    self.slot_of@,
                    q,
                ));
            }
        }
        if self.in_order() {
            assert forall|p: int, q: int|
                0 <= p < q < self.slot_of@.len() && self.slots@[self.slot_of@[p]]->hash
                    == self.slots@[self.slot_of@[q]]->hash implies #[trigger] rank_of(
                self.slots@,
                self.slot_of@,
                p,
            ) < #[trigger] rank_of(self.slots@, self.slot_of@, q) by {
                assert(self.hashes()[p] == self.hashes()[q]);
                assert(self.rank(p) < self.rank(q));
            }
        }
    }

    /// Two positions with one hash never share a rank.
    pub proof fn lemma_rank_distinct(&self, p: int, q: int)
        requires
            self.wf(),
            0 <= p < self.hashes().len(),
            0 <= q < self.hashes().len(),
            p != q,
            self.hashes()[p] == self.hashes()[q],
        ensures
            self.rank(p) != self.rank(q),
    {
        assert(self.slots@[self.slot_of@[p]]->pos == p);
        assert(self.slots@[self.slot_of@[q]]->pos == q);
    }

    /// An empty table.
    pub fn new() -> (table: Self)
        ensures
            table.wf(),
            table.hashes() == Seq::<HashValue>::empty(),
            table.capacity() == INITIAL_SLOTS,
            table.load() == 0,
            table.in_order(),
    {
        let mut slots: Vec<Slot> = Vec::new();
        let mut i: usize = 0;
        while i < INITIAL_SLOTS
            invariant
                i <= INITIAL_SLOTS,
                slots@.len() == i,
                forall|s: int| 0 <= s < i ==> (#[trigger] slots@[s]) is Empty,
            decreases INITIAL_SLOTS - i,
        {
            slots.push(Slot::Empty);
            i += 1;
        }
        proof {
            assert(filled(slots@) =~= Set::<int>::empty());
            assert(hashes_of(slots@, Seq::<int>::empty()) =~= Seq::<HashValue>::empty());
        }
        IndexTable { slots, len: 0, used: 0, slot_of: Ghost(Seq::empty()) }
    }

    /// The number of positions in the table.
    pub fn len(&self) -> (n: usize)
        requires
            self.wf(),
        ensures
            n == self.hashes().len(),
    {
        self.len
    }

    /// What each slot holds: for a slot in use by a position, the hash and the
    /// position; for any other slot, nothing.
    pub closed spec fn slot_entries(&self) -> Seq<Option<(HashValue, int)>> {
        Seq::new(
            self.slots@.len(),
            |s: int|
                match self.slots@[s] {
                    Slot::Full { hash, pos } => Some((hash, pos as int)),
                    _ => None,
                },
        )
    }

    /// The table holds one entry for each position and no other, under the
    /// hash that it caches for the position.
    pub proof fn lemma_one_entry_each(&self)
        requires
            self.wf(),
        ensures
            forall|p: int|
                #![trigger self.hashes()[p]]
                0 <= p < self.hashes().len() ==> exists|s: int|
                    0 <= s < self.slot_entries().len() && #[trigger] self.slot_entries()[s] == Some(
                        (self.hashes()[p], p),
                    ),
            forall|s: int, t: int|
                0 <= s < self.slot_entries().len() && 0 <= t < self.slot_entries().len() && (
                #[trigger] self.slot_entries()[s]) is Some && (#[trigger] self.slot_entries()[t]) is Some
                    && self.slot_entries()[s].unwrap().1 == self.slot_entries()[t].unwrap().1 ==> s == t,
            forall|s: int|
                0 <= s < self.slot_entries().len() && (#[trigger] self.slot_entries()[s]) is Some ==> {
                    let held = self.slot_entries()[s].unwrap();
                    0 <= held.1 < self.hashes().len() && self.hashes()[held.1] == held.0
                },
    {
        assert forall|p: int| #![trigger self.hashes()[p]] 0 <= p < self.hashes().len() implies exists|s: int|
            0 <= s < self.slot_entries().len() && #[trigger] self.slot_entries()[s] == Some(
                (self.hashes()[p], p),
            ) by {
            let s = self.slot_of@[p];
            assert(self.slots@[s] is Full);
            assert(self.slot_entries()[s] == Some((self.hashes()[p], p)));
        }
        assert forall|s: int, t: int|
            0 <= s < self.slot_entries().len() && 0 <= t < self.slot_entries().len() && (
            #[trigger] self.slot_entries()[s]) is Some && (#[trigger] self.slot_entries()[t]) is Some
                && self.slot_entries()[s].unwrap().1 == self.slot_entries()[t].unwrap().1 implies s
            == t by {
            assert(self.slots@[s] is Full);
            assert(self.slots@[t] is Full);
        }
        assert forall|s: int|
            0 <= s < self.slot_entries().len() && (#[trigger] self.slot_entries()[s]) is Some implies {
            let held = self.slot_entries()[s].unwrap();
            0 <= held.1 < self.hashes().len() && self.hashes()[held.1] == held.0
        } by {
            assert(self.slots@[s] is Full);
        }
    }

    /// The number of slots, which bounds every rank.
    pub closed spec fn capacity(&self) -> int {
        self.slots@.len() as int
    }

    /// The number of slots in use, by a position or by a tombstone.
    pub closed spec fn load(&self) -> int {
        self.used as int
    }

    /// The number of slots.
    pub fn slot_count(&self) -> (n: usize)
        ensures
            n == self.capacity(),
    {
        self.slots.len()
    }

    /// The number of slots in use, by a position or by a tombstone.
    pub fn slots_in_use(&self) -> (n: usize)
        ensures
            n == self.load(),
    {
        self.used
    }

    /// The positions are no more than the slots in use, and these no more than the slots.
    pub proof fn lemma_load_bound(&self)
        requires
            self.wf(),
        ensures
            self.hashes().len() <= self.load() <= self.capacity(),
    {
        lemma_filled_bound(self.slots@);
        lemma_positions_bound(self.slots@, self.slot_of@);
    }

    /// A table has at least one slot, and no more than a machine word counts.
    pub proof fn lemma_capacity_bound(&self)
        requires
            self.wf(),
        ensures
            1 <= self.capacity() <= usize::MAX,
    {
        assert(self.slots.len() == self.slots@.len());
    }

    /// Every rank lies below the number of slots.
    pub proof fn lemma_rank_bound(&self, p: int)
        requires
            self.wf(),
            0 <= p < self.hashes().len(),
        ensures
            0 <= self.rank(p) < self.capacity(),
    {
        assert(0 <= self.slot_of@[p] < self.slots@.len());
    }

    /// Probes for `hash`, starting `from` steps after its home slot, and returns
    /// the next position in probing order that caches `hash`, with its rank.
    pub fn next_candidate(&self, hash: HashValue, from: usize) -> (next: Option<(usize, usize)>)
        requires
            self.wf(),
        ensures
            match next {
                Some((p, rank)) => {
                    &&& p < self.hashes().len()
                    &&& self.hashes()[p as int] == hash
                    &&& self.rank(p as int) == rank
                    &&& from <= rank < self.capacity()
                    &&& forall|q: int|
                        0 <= q < self.hashes().len() && #[trigger] self.hashes()[q] == hash
                            && from <= self.rank(q) ==> rank <= self.rank(q)
                },
                None => forall|q: int|
                    0 <= q < self.hashes().len() && #[trigger] self.hashes()[q] == hash ==> self.rank(
                        q,
                    ) < from,
            },
    {
        let cap = self.slots.len();
        if from >= cap {
            proof {
                assert forall|q: int|
                    0 <= q < self.hashes().len() && #[trigger] self.hashes()[q]
                        == hash implies self.rank(q) < from by {
                    self.lemma_rank_bound(q);
                }
            }
            return None;
        }
        let home = home_slot(hash, cap);
        let mut s = if home < cap - from {
            home + from
        } else {
            home - (cap - from)
        };
        let mut j: usize = from;
        while j < cap
            invariant
                self.wf(),
                cap == self.slots@.len(),
                home == home_of(hash, cap as int),
                home < cap,
                from <= j <= cap,
                s < cap,
                j < cap ==> s == probe_at(home as int, j as int, cap as int),
                forall|q: int|
                    0 <= q < self.hashes().len() && #[trigger] self.hashes()[q] == hash
                        && from <= self.rank(q) ==> j <= self.rank(q),
            decreases cap - j,
        {
            match self.slots[s] {
                Slot::Empty => {
                    proof {
                        assert forall|q: int|
                            0 <= q < self.hashes().len() && #[trigger] self.hashes()[q]
                                == hash implies self.rank(q) < from by {
                            let t = self.slot_of@[q];
                            assert(reachable(self.slots@, home as int, t));
                            if self.rank(q) >= from {
                                if self.rank(q) > j {
                                    assert(!(self.slots@[probe_at(home as int, j as int, cap as int)] is Empty));
                                }
                                assert(false);
                            }
                        }
                    }
                    return None;
                },
                Slot::Deleted => {},
                Slot::Full { hash: cached, pos } => {
                    if cached == hash {
                        proof {
                            assert(self.slot_of@[pos as int] == s);
                            assert(self.rank(pos as int) == j);
                        }
                        return Some((pos, j));
                    }
                },
            }
            proof {
                assert forall|q: int|
                    0 <= q < self.hashes().len() && #[trigger] self.hashes()[q] == hash && from
                        <= self.rank(q) implies j + 1 <= self.rank(q) by {
                    if self.rank(q) == j {
                        let t = self.slot_of@[q];
                        assert(t == s);
                        assert(self.slots@[t]->pos == q);
                    }
                }
            }
            j += 1;
            s = next_slot(s, cap);
        }
        proof {
            assert forall|q: int|
                0 <= q < self.hashes().len() && #[trigger] self.hashes()[q] == hash implies self.rank(
                q,
            ) < from by {
                self.lemma_rank_bound(q);
            }
        }
        None
    }

    /// The slot that stands for position `pos`, found by probing for its hash.
    fn locate_slot(&self, hash: HashValue, pos: usize) -> (s: usize)
        requires
            self.wf(),
            pos < self.hashes().len(),
            self.hashes()[pos as int] == hash,
        ensures
            s == self.slot_of@[pos as int],
            s < self.slots@.len(),
    {
        let cap = self.slots.len();
        let home = home_slot(hash, cap);
        let ghost target = self.slot_of@[pos as int];
        let mut s = home;
        let mut j: usize = 0;
        proof {
            assert(self.slots@[target] is Full);
            assert(reachable(self.slots@, home as int, target));
        }
        loop
            invariant
                self.wf(),
                cap == self.slots@.len(),
                pos < self.slot_of@.len(),
                target == self.slot_of@[pos as int],
                0 <= target < cap,
                self.slots@[target] is Full,
                self.slots@[target]->pos == pos,
                reachable(self.slots@, home as int, target),
                home < cap,
                j < cap,
                s == probe_at(home as int, j as int, cap as int),
                j <= probe_dist(home as int, target, cap as int),
            decreases cap - j,
        {
            match self.slots[s] {
                Slot::Full { hash: _, pos: at } => {
                    if at == pos {
                        return s;
                    }
                },
                _ => {},
            }
            j += 1;
            s = next_slot(s, cap);
        }
    }

    /// Builds the table anew with `new_cap` empty slots and files every position again,
    /// under the hash that its record carries.
    fn rebuild<K, V>(&mut self, entries: &Vec<Bucket<K, V>>, new_cap: usize)
        requires
            old(self).wf(),
            old(self).hashes().len() <= entries@.len(),
            forall|p: int|
                0 <= p < old(self).hashes().len() ==> (#[trigger] entries@[p]).hash == old(
                    self,
                ).hashes()[p],
            new_cap > old(self).hashes().len(),
        ensures
            final(self).wf(),
            final(self).hashes() == old(self).hashes(),
            final(self).slots@.len() == new_cap,
            final(self).used == final(self).len,
            forall|s: int|
                0 <= s < final(self).slots@.len() ==> !((#[trigger] final(self).slots@[s]) is Deleted),
            final(self).in_order(),
    {
        let n = self.len;
        let ghost wanted = self.hashes();
        let mut slots: Vec<Slot> = Vec::new();
        let mut c: usize = 0;
        while c < new_cap
            invariant
                c <= new_cap,
                slots@.len() == c,
                forall|s: int| 0 <= s < c ==> (#[trigger] slots@[s]) is Empty,
            decreases new_cap - c,
        {
            slots.push(Slot::Empty);
            c += 1;
        }
        let ghost mut placed: Seq<int> = Seq::empty();
        proof {
            assert(filled(slots@) =~= Set::<int>::empty());
            assert(hashes_of(slots@, placed) =~= wanted.take(0));
        }
        let mut i: usize = 0;
        while i < n
            invariant
                i <= n,
                n == wanted.len(),
                n <= entries@.len(),
                n < new_cap,
                forall|p: int| 0 <= p < n ==> (#[trigger] entries@[p]).hash == wanted[p],
                slots@.len() == new_cap,
                placed.len() == i,
                table_inv(slots@, placed),
                hashes_of(slots@, placed) == wanted.take(i as int),
                forall|s: int| 0 <= s < slots@.len() ==> !((#[trigger] slots@[s]) is Deleted),
                ordered(slots@, placed),
                filled(slots@).finite(),
                filled(slots@).len() == i,
            decreases n - i,
        {
            let hash = entries[i].hash;
            let ghost before = slots@;
            let (was_empty, Ghost(t)) = place(&mut slots, Ghost(placed), hash, i);
            proof {
                assert(before[t] is Empty);
                assert(!filled(before).contains(t));
                placed = placed.push(t);
                assert(wanted.take(i as int).push(hash) =~= wanted.take(i + 1));
            }
            i += 1;
        }
        self.slots = slots;
        self.used = n;
        self.slot_of = Ghost(placed);
        proof {
            assert(wanted.take(n as int) =~= wanted);
            self.lemma_in_order();
        }
    }

    /// Files the next position under `hash`, growing the table first if the
    /// insertion would exceed its load factor. `entries` is the entry store
    /// with the new record already at its end.
    pub fn insert<K, V>(&mut self, hash: HashValue, entries: &Vec<Bucket<K, V>>)
        requires
            old(self).wf(),
            cached_hashes(entries@) == old(self).hashes().push(hash),
        ensures
            final(self).wf(),
            final(self).hashes() == old(self).hashes().push(hash),
            final(self).capacity() == slots_for_next(
                old(self).capacity(),
                old(self).load(),
                old(self).hashes().len() as int,
            ),
            if old(self).load() + 1 > max_load(old(self).capacity()) {
                final(self).load() == old(self).hashes().len() + 1
            } else {
                old(self).load() <= final(self).load() <= old(self).load() + 1
            },
            old(self).load() + 1 <= max_load(old(self).capacity()) ==> forall|q: int|
                0 <= q < old(self).hashes().len() ==> #[trigger] final(self).rank(q) == old(
                    self,
                ).rank(q),
            old(self).load() + 1 > max_load(old(self).capacity()) || (old(self).in_order()
                && final(self).load() == old(self).load() + 1) ==> final(self).in_order(),
    {
        let cap = self.slots.len();
        let total = entries.len();
        let ghost wanted = self.hashes();
        proof {
            lemma_filled_bound(self.slots@);
            lemma_positions_bound(self.slots@, self.slot_of@);
            assert(cached_hashes(entries@).len() == entries@.len());
            assert(wanted.push(hash).len() == wanted.len() + 1);
            assert(self.len + 1 == total);
            assert forall|p: int| 0 <= p < wanted.len() implies (#[trigger] entries@[p]).hash
                == wanted[p] by {
                assert(cached_hashes(entries@)[p] == wanted.push(hash)[p]);
            }
        }
        if self.used >= cap - cap / 8 {
            let new_cap = if self.len >= cap / 2 {
                if cap <= usize::MAX / 2 {
                    cap * 2
                } else {
                    usize::MAX
                }
            } else {
                cap
            };
            self.rebuild(entries, new_cap);
        }
        let pos = self.len;
        let ghost slot_of = self.slot_of@;
        let ghost before = self.slots@;
        proof {
            lemma_filled_bound(before);
            self.lemma_in_order();
            old(self).lemma_in_order();
        }
        let (was_empty, Ghost(t)) = place(&mut self.slots, Ghost(slot_of), hash, pos);
        self.len = pos + 1;
        if was_empty {
            proof {
                assert(!filled(before).contains(t));
            }
            self.used = self.used + 1;
        }
        proof {
            self.slot_of@ = slot_of.push(t);
            self.lemma_in_order();
        }
    }

    /// Removes position `pos` and gives its place to the last position.
    /// `hash` is the hash of `pos`, `last_hash` that of the last position.
    pub fn remove_swap(&mut self, pos: usize, hash: HashValue, last_hash: HashValue)
        requires
            old(self).wf(),
            pos < old(self).hashes().len(),
            old(self).hashes()[pos as int] == hash,
            old(self).hashes().last() == last_hash,
        ensures
            final(self).wf(),
            final(self).hashes() == old(self).hashes().update(pos as int, last_hash).drop_last(),
            final(self).capacity() == old(self).capacity(),
            final(self).load() == old(self).load(),
            forall|q: int|
                0 <= q < final(self).hashes().len() ==> #[trigger] final(self).rank(q) == old(
                    self,
                ).rank(if q == pos { old(self).hashes().len() - 1 } else { q }),
    {
        let last = self.len - 1;
        let ghost before = self.slots@;
        let ghost slot_of = self.slot_of@;
        let s = self.locate_slot(hash, pos);
        if pos != last {
            let t = self.locate_slot(last_hash, last);
            self.slots[t] = Slot::Full { hash: last_hash, pos };
        }
        self.slots[s] = Slot::Deleted;
        self.len = last;
        proof {
            let after = self.slots@;
            let moved = slot_of.update(pos as int, slot_of[last as int]).drop_last();
            self.slot_of@ = moved;
            assert(before[slot_of[last as int]] is Full);
            assert(before[slot_of[pos as int]] is Full);
            assert forall|x: int| 0 <= x < after.len() && (#[trigger] after[x]) is Empty implies before[x] is Empty by {}
            assert forall|p: int| 0 <= p < moved.len() implies {
                let x = #[trigger] moved[p];
                &&& 0 <= x < after.len()
                &&& after[x] is Full
                &&& after[x]->pos == p
                &&& reachable(after, home_of(after[x]->hash, after.len() as int), x)
            } by {
                let q = if p == pos { last as int } else { p };
                let x = slot_of[q];
                assert(moved[p] == x);
                assert(before[x] is Full);
                assert(before[x]->pos == q);
                lemma_reachable_kept(before, after, home_of(before[x]->hash, before.len() as int), x);
            }
            assert forall|x: int| 0 <= x < after.len() && (#[trigger] after[x]) is Full implies {
                &&& 0 <= after[x]->pos < moved.len()
                &&& moved[after[x]->pos as int] == x
            } by {
                assert(before[x] is Full);
            }
            assert(filled(after) =~= filled(before));
            assert forall|q: int| 0 <= q < moved.len() implies rank_of(after, moved, q) == rank_of(
                before,
                slot_of,
                if q == pos { last as int } else { q },
            ) by {
                let o = if q == pos { last as int } else { q };
                assert(before[slot_of[o]] is Full);
            }
            assert(hashes_of(after, moved) =~= hashes_of(before, slot_of).update(
                pos as int,
                last_hash,
            ).drop_last()) by {
                assert forall|p: int| 0 <= p < moved.len() implies after[moved[p]]->hash == (if p
                    == pos {
                    last_hash
                } else {
                    before[slot_of[p]]->hash
                }) by {
                    let q = if p == pos { last as int } else { p };
                    assert(before[slot_of[q]] is Full);
                }
            }
        }
    }

    /// Removes position `pos` and moves every later position down by one.
    /// `hash` is the hash of `pos`.
    pub fn remove_shift(&mut self, pos: usize, hash: HashValue)
        requires
            old(self).wf(),
            pos < old(self).hashes().len(),
            old(self).hashes()[pos as int] == hash,
        ensures
            final(self).wf(),
            final(self).hashes() == old(self).hashes().remove(pos as int),
            final(self).capacity() == old(self).capacity(),
            final(self).load() == old(self).load(),
            forall|q: int|
                0 <= q < final(self).hashes().len() ==> #[trigger] final(self).rank(q) == old(
                    self,
                ).rank(if q < pos { q } else { q + 1 }),
            old(self).in_order() ==> final(self).in_order(),
    {
        let cap = self.slots.len();
        let ghost before = self.slots@;
        let ghost slot_of = self.slot_of@;
        let s = self.locate_slot(hash, pos);
        self.slots[s] = Slot::Deleted;
        let ghost erased = self.slots@;
        let mut u: usize = 0;
        while u < cap
            invariant
                u <= cap,
                cap == erased.len(),
                self.slots@.len() == cap,
                self.len == old(self).len,
                self.used == old(self).used,
                self.slot_of@ == slot_of,
                forall|x: int| 0 <= x < u ==> #[trigger] self.slots@[x] == shift_slot(erased[x], pos as int),
                forall|x: int| u <= x < cap ==> #[trigger] self.slots@[x] == erased[x],
            decreases cap - u,
        {
            match self.slots[u] {
                Slot::Full { hash: cached, pos: at } => {
                    if at > pos {
                        self.slots[u] = Slot::Full { hash: cached, pos: at - 1 };
                    }
                },
                _ => {},
            }
            u += 1;
        }
        self.len = self.len - 1;
        proof {
            let after = self.slots@;
            let moved = slot_of.remove(pos as int);
            self.slot_of@ = moved;
            assert(before[slot_of[pos as int]] is Full);
            assert forall|x: int| 0 <= x < after.len() && (#[trigger] after[x]) is Empty implies before[x] is Empty by {
                assert(after[x] == shift_slot(erased[x], pos as int));
            }
            assert forall|p: int| 0 <= p < moved.len() implies {
                let x = #[trigger] moved[p];
                &&& 0 <= x < after.len()
                &&& after[x] is Full
                &&& after[x]->pos == p
                &&& reachable(after, home_of(after[x]->hash, after.len() as int), x)
            } by {
                let q = if p < pos { p } else { p + 1 };
                let x = slot_of[q];
                assert(moved[p] == x);
                assert(before[x] is Full);
                assert(before[x]->pos == q);
                assert(after[x] == shift_slot(erased[x], pos as int));
                lemma_reachable_kept(before, after, home_of(before[x]->hash, before.len() as int), x);
            }
            assert forall|x: int| 0 <= x < after.len() && (#[trigger] after[x]) is Full implies {
                &&& 0 <= after[x]->pos < moved.len()
                &&& moved[after[x]->pos as int] == x
            } by {
                assert(after[x] == shift_slot(erased[x], pos as int));
                assert(before[x] is Full);
            }
            assert(filled(after) =~= filled(before)) by {
                assert forall|x: int| 0 <= x < after.len() implies ((#[trigger] after[x]) is Empty
                    <==> before[x] is Empty) by {
                    assert(after[x] == shift_slot(erased[x], pos as int));
                }
            }
            assert forall|q: int| 0 <= q < moved.len() implies rank_of(after, moved, q) == rank_of(
                before,
                slot_of,
                if q < pos { q } else { q + 1 },
            ) by {
                let o = if q < pos { q } else { q + 1 };
                assert(before[slot_of[o]] is Full);
                assert(after[slot_of[o]] == shift_slot(erased[slot_of[o]], pos as int));
            }
            assert(hashes_of(after, moved) =~= hashes_of(before, slot_of).remove(pos as int)) by {
                assert forall|p: int| 0 <= p < moved.len() implies after[moved[p]]->hash
                    == before[slot_of[if p < pos { p } else { p + 1 }]]->hash by {
                    let q = if p < pos { p } else { p + 1 };
                    assert(before[slot_of[q]] is Full);
                    assert(after[slot_of[q]] == shift_slot(erased[slot_of[q]], pos as int));
                }
            }
            if old(self).in_order() {
                assert forall|p: int, q: int|
                    0 <= p < q < self.hashes().len() && self.hashes()[p]
                        == self.hashes()[q] implies #[trigger] self.rank(p) < #[trigger] self.rank(
                    q,
                ) by {
                    let op = if p < pos { p } else { p + 1 };
                    let oq = if q < pos { q } else { q + 1 };
                    assert(rank_of(after, moved, p) == rank_of(before, slot_of, op));
                    assert(rank_of(after, moved, q) == rank_of(before, slot_of, oq));
                    assert(old(self).hashes()[op] == old(self).hashes()[oq]);
                    assert(old(self).rank(op) < old(self).rank(oq));
                }
            }
        }
    }
}

} // verus!
