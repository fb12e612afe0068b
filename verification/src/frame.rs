//! The bookkeeping of the patch geometry cache.
//!
//! A patch's vertices depend on neither the camera nor the body, so they are
//! uploaded once into a slot and reused while the patch stays in the frame.
//! Neighbouring frames share almost the whole patch set, so a slot is found
//! for a new patch by a cursor going round the slots, taking the first one
//! that is not needed by **this** frame. The capacity is kept at least twice
//! what a frame needs, so such a slot always exists.
//!
//! What is uploaded into a slot, and where, is the caller's business; this
//! module decides which slot a patch gets and whether it must be uploaded.
use vstd::prelude::*;
use std::collections::HashMap;
use crate::cubesphere::{lemma_key_bounds, lemma_key_injective, Patch, FACES};

verus! {

/// The capacity the cache starts with; it only grows from there.
pub const MIN_PATCHES: usize = 64;

/// Which patch lives in which slot, and when each slot was last needed.
pub struct PatchCache {
    capacity: usize,
    slot: HashMap<u128, u32>,
    resident: Vec<Option<Patch>>,
    /// The frame in which the slot was last needed.
    stamp: Vec<u64>,
    cursor: usize,
    frame: u64,
}

/// How many of the first `n` stamps equal `frame`.
pub open spec fn count_stamped(stamps: Seq<u64>, frame: u64, n: int) -> nat
    decreases n,
{
    if n <= 0 {
        0
    } else {
        count_stamped(stamps, frame, n - 1) + if stamps[n - 1] == frame {
            1nat
        } else {
            0nat
        }
    }
}

/// The slot `d` steps after `cursor`, going round `capacity` slots.
pub open spec fn round(cursor: int, d: int, capacity: int) -> int {
    if cursor + d < capacity {
        cursor + d
    } else {
        cursor + d - capacity
    }
}

/// The first slot at or after `d` steps from `cursor`, going round, whose
/// stamp is older than `frame`; searching stops after `capacity` slots.
pub open spec fn free_from(stamps: Seq<u64>, frame: u64, cursor: int, capacity: int, d: int) -> Option<
    int,
>
    decreases capacity - d,
{
    if d >= capacity {
        None
    } else if stamps[round(cursor, d, capacity)] < frame {
        Some(round(cursor, d, capacity))
    } else {
        free_from(stamps, frame, cursor, capacity, d + 1)
    }
}

proof fn lemma_count_stamped_bound(stamps: Seq<u64>, frame: u64, n: int)
    requires
        0 <= n,
    ensures
        count_stamped(stamps, frame, n) <= n,
    decreases n,
{
    if n > 0 {
        lemma_count_stamped_bound(stamps, frame, n - 1);
    }
}

proof fn lemma_count_stamped_update(stamps: Seq<u64>, frame: u64, n: int, s: int)
    requires
        0 <= s < n <= stamps.len(),
    ensures
        count_stamped(stamps.update(s, frame), frame, n) <= count_stamped(stamps, frame, n) + 1,
        stamps[s] == frame ==> count_stamped(stamps.update(s, frame), frame, n) == count_stamped(
            stamps,
            frame,
            n,
        ),
    decreases n,
{
    let u = stamps.update(s, frame);
    if n - 1 > s {
        lemma_count_stamped_update(stamps, frame, n - 1, s);
        assert(u[n - 1] == stamps[n - 1]);
        assert(count_stamped(u, frame, n) == count_stamped(u, frame, n - 1) + if u[n - 1] == frame { 1nat } else { 0nat });
        assert(count_stamped(stamps, frame, n) == count_stamped(stamps, frame, n - 1) + if stamps[n - 1] == frame { 1nat } else { 0nat });
    } else {
        lemma_count_stamped_prefix(stamps, u, frame, s);
        assert(count_stamped(u, frame, n) == count_stamped(u, frame, s) + 1);
        assert(count_stamped(stamps, frame, n) == count_stamped(stamps, frame, s) + if stamps[s] == frame { 1nat } else { 0nat });
    }
}

proof fn lemma_count_stamped_prefix(a: Seq<u64>, b: Seq<u64>, frame: u64, m: int)
    requires
        0 <= m <= a.len(),
        m <= b.len(),
        forall|k: int| 0 <= k < m ==> a[k] == b[k],
    ensures
        count_stamped(a, frame, m) == count_stamped(b, frame, m),
    decreases m,
{
    if m > 0 {
        lemma_count_stamped_prefix(a, b, frame, m - 1);
    }
}

/// If fewer than all slots carry `frame`, some slot does not.
proof fn lemma_count_stamped_free(stamps: Seq<u64>, frame: u64, n: int)
    requires
        0 <= n <= stamps.len(),
        count_stamped(stamps, frame, n) < n,
    ensures
        exists|k: int| 0 <= k < n && stamps[k] != frame,
    decreases n,
{
    if stamps[n - 1] == frame {
        lemma_count_stamped_free(stamps, frame, n - 1);
    }
}

/// What the search finds is a slot, and one that this frame has not needed.
proof fn lemma_free_from_free(stamps: Seq<u64>, frame: u64, cursor: int, capacity: int, d: int)
    requires
        0 <= cursor < capacity,
        0 <= d,
        stamps.len() == capacity,
    ensures
        free_from(stamps, frame, cursor, capacity, d) matches Some(s) ==> 0 <= s < capacity
            && stamps[s] < frame,
    decreases capacity - d,
{
    if d < capacity && stamps[round(cursor, d, capacity)] >= frame {
        lemma_free_from_free(stamps, frame, cursor, capacity, d + 1);
    }
}

/// A search that has not yet passed a free slot meets one.
proof fn lemma_free_from_found(
    stamps: Seq<u64>,
    frame: u64,
    cursor: int,
    capacity: int,
    d: int,
    e: int,
)
    requires
        0 <= cursor < capacity,
        0 <= d <= e < capacity,
        stamps.len() == capacity,
        stamps[round(cursor, e, capacity)] < frame,
    ensures
        free_from(stamps, frame, cursor, capacity, d) is Some,
    decreases e - d,
{
    if stamps[round(cursor, d, capacity)] >= frame {
        lemma_free_from_found(stamps, frame, cursor, capacity, d + 1, e);
    }
}

impl PatchCache {
    /// The number of slots.
    pub closed spec fn capacity_of(&self) -> nat {
        self.capacity as nat
    }

    /// The current frame number.
    pub closed spec fn frame_of(&self) -> u64 {
        self.frame
    }

    /// What lives in each slot.
    pub closed spec fn residents(&self) -> Seq<Option<Patch>> {
        self.resident@
    }

    /// When each slot was last needed.
    pub closed spec fn stamps(&self) -> Seq<u64> {
        self.stamp@
    }

    /// Where the search for a free slot starts.
    pub closed spec fn cursor_of(&self) -> nat {
        self.cursor as nat
    }

    /// The slot `p` lives in, if any.
    pub open spec fn slot_of(&self, p: Patch) -> Option<int> {
        if exists|s: int| 0 <= s < self.capacity_of() && self.residents()[s] == Some(p) {
            Some(choose|s: int| 0 <= s < self.capacity_of() && self.residents()[s] == Some(p))
        } else {
            None
        }
    }

    /// How many slots this frame has already needed.
    pub open spec fn used(&self) -> nat {
        count_stamped(self.stamps(), self.frame_of(), self.capacity_of() as int)
    }

    /// The cache is consistent: the index finds exactly the resident
    /// patches, no patch lives in two slots, and no slot is stamped in the
    /// future.
    pub closed spec fn wf(&self) -> bool {
        &&& self.capacity > 0
        &&& self.resident@.len() == self.capacity
        &&& self.stamp@.len() == self.capacity
        &&& self.cursor < self.capacity
        &&& forall|s: int| 0 <= s < self.capacity ==> #[trigger] self.stamp@[s] <= self.frame
        &&& forall|s: int|
            0 <= s < self.capacity && #[trigger] self.resident@[s] is Some ==> {
                let p = self.resident@[s]->0;
                &&& p.face < FACES
                &&& self.slot@.contains_key(p.key_of() as u128)
                &&& self.slot@[p.key_of() as u128] == s
            }
        &&& forall|k: u128| #[trigger]
            self.slot@.contains_key(k) ==> {
                let s = self.slot@[k] as int;
                &&& 0 <= s < self.capacity
                &&& self.resident@[s] is Some
                &&& self.resident@[s]->0.key_of() as u128 == k
            }
    }

    /// An empty cache of `capacity` slots.
    pub fn new(capacity: usize) -> (c: PatchCache)
        requires
            capacity > 0,
        ensures
            c.wf(),
            c.capacity_of() == capacity,
            c.frame_of() == 0,
            c.cursor_of() == 0,
            c.residents() == Seq::new(capacity as nat, |s: int| None::<Patch>),
            c.stamps() == Seq::new(capacity as nat, |s: int| 0u64),
    {
        let mut resident: Vec<Option<Patch>> = Vec::new();
        let mut stamp: Vec<u64> = Vec::new();
        let mut k: usize = 0;
        while k < capacity
            invariant
                k <= capacity,
                resident@ == Seq::new(k as nat, |s: int| None::<Patch>),
                stamp@ == Seq::new(k as nat, |s: int| 0u64),
            decreases capacity - k,
        {
            resident.push(None);
            stamp.push(0);
            k = k + 1;
            assert(resident@ =~= Seq::new(k as nat, |s: int| None::<Patch>));
            assert(stamp@ =~= Seq::new(k as nat, |s: int| 0u64));
        }
        let c = PatchCache { capacity, slot: HashMap::new(), resident, stamp, cursor: 0, frame: 0 };
        assert(c.slot@ =~= Map::empty());
        c
    }

    /// The number of slots.
    pub fn capacity(&self) -> (n: usize)
        ensures
            n == self.capacity_of(),
    {
        self.capacity
    }

    /// Starts a new frame: no slot is needed by it yet.
    pub fn begin_frame(&mut self)
        requires
            old(self).wf(),
            old(self).frame_of() < u64::MAX,
        ensures
            final(self).wf(),
            final(self).frame_of() == old(self).frame_of() + 1,
            final(self).capacity_of() == old(self).capacity_of(),
            final(self).residents() == old(self).residents(),
            final(self).stamps() == old(self).stamps(),
            final(self).cursor_of() == old(self).cursor_of(),
            final(self).used() == 0,
    {
        self.frame = self.frame + 1;
        proof {
            let f = self.frame;
            let stamps = self.stamp@;
            assert forall|m: int| 0 <= m <= stamps.len() implies count_stamped(stamps, f, m)
                == 0 by {
                lemma_count_stamped_zero(stamps, f, m);
            }
        }
    }

    /// The slot of a patch: the one it already has, or a freshly taken one.
    ///
    /// A fresh slot is the first one from the cursor on, going round, that
    /// this frame has not needed yet; whatever lived there is evicted, and the
    /// cursor moves past it. The second value says whether the slot was
    /// freshly taken, that is whether the patch's geometry must be uploaded
    /// into it.
    pub fn intern(&mut self, patch: Patch) -> (r: (u32, bool))
        requires
            old(self).wf(),
            patch.face < FACES,
            old(self).capacity_of() <= u32::MAX + 1,
            old(self).slot_of(patch) is Some || old(self).used() < old(self).capacity_of(),
        ensures
            final(self).wf(),
            final(self).frame_of() == old(self).frame_of(),
            final(self).capacity_of() == old(self).capacity_of(),
            final(self).used() <= old(self).used() + 1,
            match old(self).slot_of(patch) {
                Some(s) => {
                    &&& r == (s as u32, false)
                    &&& final(self).residents() == old(self).residents()
                    &&& final(self).stamps() == old(self).stamps().update(s, old(self).frame_of())
                    &&& final(self).cursor_of() == old(self).cursor_of()
                },
                None => {
                    let s = free_from(
                        old(self).stamps(),
                        old(self).frame_of(),
                        old(self).cursor_of() as int,
                        old(self).capacity_of() as int,
                        0,
                    );
                    &&& s is Some
                    &&& r == (s->0 as u32, true)
                    &&& final(self).residents() == old(self).residents().update(s->0, Some(patch))
                    &&& final(self).stamps() == old(self).stamps().update(
                        s->0,
                        old(self).frame_of(),
                    )
                    &&& final(self).cursor_of() == round(s->0, 1, old(self).capacity_of() as int)
                },
            },
            final(self).slot_of(patch) == Some(r.0 as int),
            r.0 < old(self).capacity_of(),
            r.1 ==> old(self).stamps()[r.0 as int] < old(self).frame_of(),
            forall|t: int|
                0 <= t < old(self).capacity_of() && #[trigger] old(self).stamps()[t]
                    == old(self).frame_of() ==> final(self).residents()[t] == old(
                    self,
                ).residents()[t],
    {
        proof {
            lemma_key_bounds(patch);
        }
        let key = patch.key();
        let ghost old_stamps = self.stamp@;
        let found = self.slot.get(&key);
        match found {
            Some(slot_ref) => {
                let slot = *slot_ref;
                proof {
                    let s = slot as int;
                    assert(self.resident@[s] == Some(patch)) by {
                        lemma_key_injective(self.resident@[s]->0, patch);
                    }
                    self.lemma_slot_of(patch, s);
                }
                let frame = self.frame;
                self.stamp.set(slot as usize, frame);
                proof {
                    lemma_count_stamped_update(old_stamps, frame, self.capacity as int, slot as int);
                    self.lemma_slot_of(patch, slot as int);
                }
                return (slot, false);
            },
            None => {},
        }
        proof {
            assert(self.slot_of(patch) is None) by {
                if exists|s: int| 0 <= s < self.capacity_of() && self.residents()[s] == Some(patch) {
                    let s = choose|s: int| 0 <= s < self.capacity_of() && self.residents()[s] == Some(patch);
                    assert(self.resident@[s] is Some);
                }
            }
            lemma_count_stamped_free(self.stamp@, self.frame, self.capacity as int);
            let k = choose|k: int| 0 <= k < self.capacity && self.stamp@[k] != self.frame;
            let e = if k >= self.cursor { k - self.cursor } else { k + self.capacity - self.cursor };
            assert(round(self.cursor as int, e, self.capacity as int) == k);
            lemma_free_from_found(self.stamp@, self.frame, self.cursor as int, self.capacity as int, 0, e);
        }
        // A slot not needed by this frame. There is always one: the capacity
        // is kept at least twice what a frame needs.
        let ghost start = self.cursor as int;
        let mut d: usize = 0;
        let mut candidate = self.cursor;
        loop
            invariant
                self.wf(),
                self.stamp@ == old_stamps,
                0 <= start < self.capacity,
                d < self.capacity,
                candidate == round(start, d as int, self.capacity as int),
                free_from(old_stamps, self.frame, start, self.capacity as int, 0) == free_from(
                    old_stamps,
                    self.frame,
                    start,
                    self.capacity as int,
                    d as int,
                ),
                free_from(old_stamps, self.frame, start, self.capacity as int, 0) is Some,
                *self == *old(self),
                start == old(self).cursor_of(),
            ensures
                *self == *old(self),
                candidate < self.capacity,
                free_from(old_stamps, self.frame, start, self.capacity as int, 0) == Some(
                    candidate as int,
                ),
            decreases self.capacity - d,
        {
            if self.stamp[candidate] < self.frame {
                break;
            }
            proof {
                assert(free_from(old_stamps, self.frame, start, self.capacity as int, d as int + 1) is Some);
            }
            d = d + 1;
            candidate = if candidate + 1 == self.capacity { 0 } else { candidate + 1 };
        }
        let slot = candidate;
        proof {
            lemma_free_from_free(old_stamps, self.frame, start, self.capacity as int, 0);
            assert(old_stamps[slot as int] < self.frame);
            assert(old(self).slot_of(patch) is None);
            assert(free_from(old(self).stamps(), old(self).frame_of(), old(self).cursor_of() as int, old(self).capacity_of() as int, 0) == Some(slot as int));
        }
        self.cursor = if slot + 1 == self.capacity { 0 } else { slot + 1 };
        if let Some(old) = self.resident[slot] {
            proof {
                lemma_key_bounds(old);
            }
            let old_key = old.key();
            self.slot.remove(&old_key);
        }
        let frame = self.frame;
        self.resident.set(slot, Some(patch));
        self.stamp.set(slot, frame);
        self.slot.insert(key, slot as u32);
        proof {
            lemma_count_stamped_update(old_stamps, frame, self.capacity as int, slot as int);
            assert forall|q: Patch| q.face < FACES && (#[trigger] q.key_of()) as u128 == key implies q == patch by {
                lemma_key_bounds(q);
                lemma_key_injective(q, patch);
            }
            self.lemma_slot_of(patch, slot as int);
            assert(self.residents() == old(self).residents().update(slot as int, Some(patch)));
            assert(self.stamps() == old(self).stamps().update(slot as int, old(self).frame_of()));
            assert(self.cursor_of() == round(slot as int, 1, old(self).capacity_of() as int));
        }
        (slot as u32, true)
    }

    proof fn lemma_slot_of(&self, p: Patch, s: int)
        requires
            self.wf(),
            0 <= s < self.capacity_of(),
            self.residents()[s] == Some(p),
        ensures
            self.slot_of(p) == Some(s),
    {
        let t = choose|t: int| 0 <= t < self.capacity_of() && self.residents()[t] == Some(p);
        assert(self.resident@[t] is Some);
        assert(self.resident@[s] is Some);
    }
}

proof fn lemma_count_stamped_zero(stamps: Seq<u64>, frame: u64, m: int)
    requires
        0 <= m <= stamps.len(),
        forall|s: int| 0 <= s < stamps.len() ==> stamps[s] < frame,
    ensures
        count_stamped(stamps, frame, m) == 0,
    decreases m,
{
    if m > 0 {
        lemma_count_stamped_zero(stamps, frame, m - 1);
    }
}

/// `n` is a power of two.
pub open spec fn is_power_of_two(n: nat) -> bool
    decreases n,
{
    if n == 1 {
        true
    } else if n < 2 || n % 2 == 1 {
        false
    } else {
        is_power_of_two(n / 2)
    }
}

/// `p` is the smallest power of two not below `n`.
pub open spec fn is_next_power_of_two(p: nat, n: nat) -> bool {
    is_power_of_two(p) && n <= p && (p == 1 || p / 2 < n)
}

/// The capacity the cache is rebuilt with for a frame that needs `needed`
/// slots: `None` when the current capacity already holds twice the need;
/// otherwise twice the need rounded up to a power of two, and never below
/// [`MIN_PATCHES`].
///
/// Twice rather than exactly: eviction looks for a slot this frame does not
/// need, and at exactly the need there might be none.
pub fn reserve(needed: usize, capacity: usize) -> (r: Option<usize>)
    requires
        needed * 2 <= capacity || needed * 4 <= usize::MAX + 1,
    ensures
        needed * 2 <= capacity ==> r is None,
        needed * 2 > capacity ==> (r matches Some(c) && exists|p: nat|
            #[trigger] is_next_power_of_two(p, (needed * 2) as nat) && c == if p < MIN_PATCHES {
                MIN_PATCHES as nat
            } else {
                p
            }),
        r matches Some(c) ==> c >= needed * 2 && c >= MIN_PATCHES,
{
    if needed * 2 <= capacity {
        return None;
    }
    let target = needed * 2;
    let mut p: usize = 1;
    assert(is_power_of_two(1));
    while p < target
        invariant
            1 <= p,
            target == needed * 2,
            needed * 4 <= usize::MAX + 1,
            is_power_of_two(p as nat),
            p == 1 || p / 2 < target,
        decreases 2 * target - p,
    {
        assert(is_power_of_two((2 * p) as nat)) by {
            assert((2 * p) as nat / 2 == p);
        }
        p = p * 2;
    }
    let c = if p < MIN_PATCHES { MIN_PATCHES } else { p };
    assert(is_next_power_of_two(p as nat, (needed * 2) as nat));
    Some(c)
}

/// No patch lives in two slots.
pub proof fn lemma_one_slot_per_patch(c: &PatchCache, s: int, t: int)
    requires
        c.wf(),
        0 <= s < c.capacity_of(),
        0 <= t < c.capacity_of(),
        c.residents()[s] is Some,
        c.residents()[s] == c.residents()[t],
    ensures
        s == t,
{
}

} // verus!
