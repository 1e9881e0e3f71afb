//! Chunk receiver.
//!
//! Receives chunks from multiple links and reassembles them, with a brief
//! timeout-based reorder buffer for chunks that arrive out of order.  Nothing
//! waits for a missing chunk longer than the timeout.

use crate::chunk_aggregator::{Chunk, ChunkContents};
use crate::config::ReceiverConfig;
use crate::measure::monus;
use crate::order::{lemma_filter_start, lemma_filter_step};
use crate::protocol::AnnouncePacket;
use std::collections::{BTreeMap, HashMap};
use vstd::prelude::*;

verus! {

broadcast use {vstd::std_specs::btree::group_btree_axioms, vstd::std_specs::hash::group_hash_axioms};

/// Reassembly buffer slot.
#[derive(Debug)]
pub struct BufferSlot {
    /// Chunk data (if received)
    pub chunk: Option<Chunk>,
    /// Announcement (if received)
    pub announcement: Option<AnnouncePacket>,
    /// Expected link
    pub expected_link: Option<usize>,
    /// When slot was created (nanoseconds)
    pub created_at: u64,
    /// Has been forwarded
    pub forwarded: bool,
}

/// What a [`BufferSlot`] holds.
#[verifier::ext_equal]
pub struct SlotView {
    pub chunk: Option<ChunkContents>,
    pub announcement: Option<AnnouncePacket>,
    pub expected_link: Option<usize>,
    pub created_at: u64,
    pub forwarded: bool,
}

impl View for BufferSlot {
    type V = SlotView;

    open spec fn view(&self) -> SlotView {
        SlotView {
            chunk: match self.chunk {
                Some(chunk) => Some(chunk@),
                None => None,
            },
            announcement: self.announcement,
            expected_link: self.expected_link,
            created_at: self.created_at,
            forwarded: self.forwarded,
        }
    }
}

impl SlotView {
    /// An empty slot.
    pub open spec fn fresh(now_ns: u64) -> SlotView {
        SlotView { chunk: None, announcement: None, expected_link: None, created_at: now_ns, forwarded: false }
    }

    /// Whether the slot holds a chunk to forward.
    pub open spec fn ready(self) -> bool {
        self.chunk is Some && !self.forwarded
    }

    /// Whether the slot is older than a timeout.
    pub open spec fn late(self, timeout_ns: int, now_ns: u64) -> bool {
        monus(now_ns as nat, self.created_at as nat) > timeout_ns
    }
}

impl BufferSlot {
    /// An empty slot.
    pub fn new(now_ns: u64) -> (r: BufferSlot)
        ensures
            r@ == SlotView::fresh(now_ns),
    {
        BufferSlot { chunk: None, announcement: None, expected_link: None, created_at: now_ns, forwarded: false }
    }

    /// Whether the slot holds a chunk to forward.
    pub fn is_ready(&self) -> (r: bool)
        ensures
            r == self@.ready(),
    {
        self.chunk.is_some() && !self.forwarded
    }

    /// Whether the slot is older than a timeout.
    pub fn is_timed_out(&self, timeout_ns: u128, now_ns: u64) -> (r: bool)
        ensures
            r == self@.late(timeout_ns as int, now_ns),
    {
        now_ns.saturating_sub(self.created_at) as u128 > timeout_ns
    }
}

/// Reassembly buffer for chunks.
#[derive(Debug)]
pub struct ReassemblyBuffer {
    pub config: ReceiverConfig,
    /// Buffer slots indexed by chunk ID
    pub slots: BTreeMap<u64, BufferSlot>,
    /// Next expected chunk ID (for in-order tracking)
    pub next_expected: u64,
    /// Highest chunk ID seen
    pub highest_seen: u64,
    pub chunks_received: u64,
    pub chunks_forwarded: u64,
    pub chunks_timeout: u64,
}

/// Reassembly statistics.
#[derive(Debug, Clone, Copy, PartialEq, Eq, Structural)]
pub struct ReassemblyStats {
    pub buffered: usize,
    pub ready: usize,
    pub next_expected: u64,
    pub highest_seen: u64,
    pub chunks_received: u64,
    pub chunks_forwarded: u64,
    pub chunks_timeout: u64,
}

// ---------------------------------------------------------------------------
// Sorted listings
// ---------------------------------------------------------------------------

/// Whether every number is greater than those before it.
pub open spec fn increasing(s: Seq<u64>) -> bool {
    forall|i: int, j: int| 0 <= i < j < s.len() ==> s[i] < s[j]
}

/// The numbers of a set in increasing order.
pub open spec fn listing(set: Set<u64>) -> Seq<u64> {
    choose|s: Seq<u64>| #[trigger] increasing(s) && s.to_set() == set
}

proof fn lemma_increasing_unique(a: Seq<u64>, b: Seq<u64>)
    requires
        increasing(a),
        increasing(b),
        a.to_set() == b.to_set(),
    ensures
        a == b,
    decreases a.len(),
{
    if a.len() == 0 {
        if b.len() > 0 {
            assert(b.to_set().contains(b[0]));
            assert(a.to_set().contains(b[0]));
        }
        assert(a =~= b);
    } else {
        assert(a.to_set().contains(a.last()));
        assert(b.contains(a.last()));
        assert(b.to_set().contains(b.last()));
        assert(a.contains(b.last()));
        let i = choose|i: int| 0 <= i < b.len() && b[i] == a.last();
        let j = choose|j: int| 0 <= j < a.len() && a[j] == b.last();
        assert(a.last() == b.last());
        let shorter_a = a.drop_last();
        let shorter_b = b.drop_last();
        assert(shorter_a.to_set() =~= shorter_b.to_set()) by {
            assert forall|x: u64| shorter_a.contains(x) <==> shorter_b.contains(x) by {
                if shorter_a.contains(x) {
                    let p = choose|p: int| 0 <= p < shorter_a.len() && shorter_a[p] == x;
                    assert(a[p] == x && x < a.last());
                    assert(a.to_set().contains(x));
                    assert(b.contains(x));
                    let q = choose|q: int| 0 <= q < b.len() && b[q] == x;
                    assert(shorter_b[q] == x);
                }
                if shorter_b.contains(x) {
                    let p = choose|p: int| 0 <= p < shorter_b.len() && shorter_b[p] == x;
                    assert(b[p] == x && x < b.last());
                    assert(b.to_set().contains(x));
                    assert(a.contains(x));
                    let q = choose|q: int| 0 <= q < a.len() && a[q] == x;
                    assert(shorter_a[q] == x);
                }
            }
        }
        lemma_increasing_unique(shorter_a, shorter_b);
        assert(a =~= shorter_a.push(a.last()));
        assert(b =~= shorter_b.push(b.last()));
    }
}

proof fn lemma_listing(s: Seq<u64>, set: Set<u64>)
    requires
        increasing(s),
        s.to_set() == set,
    ensures
        listing(set) == s,
{
    lemma_increasing_unique(listing(set), s);
}

/// The chunk IDs of the slots, in increasing order.
fn sorted_ids(slots: &BTreeMap<u64, BufferSlot>) -> (r: Vec<u64>)
    ensures
        r@ == listing(slots@.dom()),
        r@.to_set() == slots@.dom(),
        increasing(r@),
        r@.len() == slots@.dom().len(),
{
    proof {
        broadcast use vstd::laws_cmp::group_laws_cmp;
    }
    let mut r: Vec<u64> = Vec::new();
    let ghost all = slots@.dom();
    for key in iter: slots.keys()
        invariant
            r@ == iter.seq().unref().take(iter.index()),
            iter.seq().unref().to_set() == all,
            iter.seq().len() == all.len(),
            vstd::std_specs::btree::increasing_seq(iter.seq()),
            iter.index() == iter.seq().len() ==> r@.to_set() == all && r@.len() == all.len(),
            increasing(r@),
    {
        proof {
            broadcast use vstd::laws_cmp::group_laws_cmp;

            assert(vstd::laws_cmp::obeys_cmp::<&u64>());
            assert forall|i: int| 0 <= i < iter.index() implies r@[i] < *key by {
                assert(vstd::std_specs::cmp::OrdSpec::cmp_spec(&iter.seq()[i], &iter.seq()[iter.index()]) is Less);
            }
        }
        r.push(*key);
        assert(r@ =~= iter.seq().unref().take(iter.index() + 1));
        assert(iter.index() + 1 == iter.seq().len() ==> r@ =~= iter.seq().unref());
    }
    proof {
        lemma_listing(r@, all);
    }
    r
}

// ---------------------------------------------------------------------------
// Model
// ---------------------------------------------------------------------------

/// The chunks to forward among the listed slots, in that order.
pub open spec fn chunks_of(slots: Map<u64, SlotView>, ids: Seq<u64>) -> Seq<ChunkContents> {
    ids.filter(|id: u64| slots[id].ready()).map_values(|id: u64| slots[id].chunk->0)
}

/// How far an in-order drain gets: how many slots it takes, which chunk it
/// expects next, how many chunks it gives up on.
pub struct Walk {
    pub taken: nat,
    pub next: nat,
    pub skipped: nat,
}

/// An in-order drain over slots by increasing ID.  It stops at a slot that is
/// not late if chunks before it are missing or it holds none itself.
pub open spec fn walk(
    slots: Map<u64, SlotView>,
    ids: Seq<u64>,
    next: nat,
    timeout_ns: int,
    now_ns: u64,
) -> Walk
    decreases ids.len(),
{
    if ids.len() == 0 {
        Walk { taken: 0, next, skipped: 0 }
    } else {
        let id = ids[0] as nat;
        let slot = slots[ids[0]];
        if !slot.late(timeout_ns, now_ns) && (id > next || !slot.ready()) {
            Walk { taken: 0, next, skipped: 0 }
        } else {
            let rest = walk(slots, ids.drop_first(), id + 1, timeout_ns, now_ns);
            Walk {
                taken: rest.taken + 1,
                next: rest.next,
                skipped: rest.skipped + monus(id, next) + if slot.ready() {
                    0nat
                } else {
                    1
                },
            }
        }
    }
}

/// The slots, the first ones dropped down to a capacity.
pub open spec fn trimmed(slots: Map<u64, SlotView>, capacity: nat) -> Map<u64, SlotView> {
    slots.remove_keys(listing(slots.dom()).take(monus(slots.dom().len(), capacity) as int).to_set())
}

/// The slots that are not late.
pub open spec fn without_late(slots: Map<u64, SlotView>, timeout_ns: int, now_ns: u64) -> Map<u64, SlotView> {
    slots.remove_keys(slots.dom().filter(|id: u64| slots[id].late(timeout_ns, now_ns)))
}

impl ReassemblyBuffer {
    /// Chunks sit in the slots of their IDs.
    pub open spec fn wf(self) -> bool {
        forall|id: u64| #[trigger]
            self.slots@.dom().contains(id) ==> (self.slots@[id]@.chunk matches Some(chunk) ==> chunk.id.0 == id)
    }

    /// The slots, by chunk ID.
    pub open spec fn slot_map(self) -> Map<u64, SlotView> {
        self.slots@.map_values(|s: BufferSlot| s@)
    }

    /// The slot of an ID, a fresh one where there is none.
    pub open spec fn slot_at(self, id: u64, now_ns: u64) -> SlotView {
        if self.slots@.dom().contains(id) {
            self.slots@[id]@
        } else {
            SlotView::fresh(now_ns)
        }
    }

    /// The IDs of the slots that hold a chunk to forward, in increasing order.
    pub open spec fn ready_slots(self) -> Seq<u64> {
        listing(self.slot_map().dom()).filter(|id: u64| self.slot_map()[id].ready())
    }

    /// The greater of the highest ID seen and another.
    pub open spec fn highest_with(self, id: u64) -> u64 {
        if id > self.highest_seen {
            id
        } else {
            self.highest_seen
        }
    }

    /// How far an in-order drain gets.
    pub open spec fn walk_at(self, now_ns: u64) -> Walk {
        walk(
            self.slot_map(),
            listing(self.slot_map().dom()),
            self.next_expected as nat,
            self.config.reorder_timeout_ms * 1_000_000,
            now_ns,
        )
    }

    /// The slots that a drain takes out, by increasing ID.
    pub open spec fn drained_ids(self, now_ns: u64) -> Seq<u64> {
        let ids = listing(self.slot_map().dom());
        if self.config.immediate_forward {
            self.ready_slots()
        } else {
            ids.take(self.walk_at(now_ns).taken as int)
        }
    }

    /// The chunks that a drain forwards.
    pub open spec fn drained(self, now_ns: u64) -> Seq<ChunkContents> {
        chunks_of(self.slot_map(), self.drained_ids(now_ns))
    }

    /// The slots left after forwarding.
    pub open spec fn undrained(self, now_ns: u64) -> Map<u64, SlotView> {
        self.slot_map().remove_keys(self.drained_ids(now_ns).to_set())
    }

    /// How many slots exceed the buffer's capacity after forwarding.
    pub open spec fn excess(self, now_ns: u64) -> nat {
        monus(self.undrained(now_ns).dom().len(), self.config.max_buffer_chunks as nat)
    }

    /// The slots left after a drain: the first ones are dropped where there
    /// are too many, then those ten times older than the timeout.
    pub open spec fn kept(self, now_ns: u64) -> Map<u64, SlotView> {
        without_late(
            trimmed(self.undrained(now_ns), self.config.max_buffer_chunks as nat),
            self.config.reorder_timeout_ms * 10 * 1_000_000,
            now_ns,
        )
    }

    /// The chunk expected after a drain.
    pub open spec fn next_after(self, now_ns: u64) -> nat {
        if self.config.immediate_forward {
            self.next_expected as nat
        } else {
            self.walk_at(now_ns).next
        }
    }

    /// The chunks given up on after a drain.
    pub open spec fn timeouts_after(self, now_ns: u64) -> nat {
        self.chunks_timeout as nat + (if self.config.immediate_forward {
            0
        } else {
            self.walk_at(now_ns).skipped
        }) + self.excess(now_ns)
    }

    /// Whether a drain stays within the machine's integers.
    pub open spec fn can_drain_at(self, now_ns: u64) -> bool {
        &&& self.config.reorder_timeout_ms * 10 <= u64::MAX
        &&& self.next_after(now_ns) <= u64::MAX
        &&& self.timeouts_after(now_ns) <= u64::MAX
        &&& self.chunks_forwarded + self.drained(now_ns).len() <= u64::MAX
    }
}

// ---------------------------------------------------------------------------
// Operations
// ---------------------------------------------------------------------------

impl ReassemblyBuffer {
    /// An empty buffer.
    pub fn new(config: ReceiverConfig) -> (r: ReassemblyBuffer)
        ensures
            r.wf(),
            r.config == config,
            r.slot_map() == Map::<u64, SlotView>::empty(),
            r.next_expected == 0,
            r.highest_seen == 0,
            r.chunks_received == 0,
            r.chunks_forwarded == 0,
            r.chunks_timeout == 0,
    {
        let r: ReassemblyBuffer = ReassemblyBuffer {
            config,
            slots: BTreeMap::new(),
            next_expected: 0,
            highest_seen: 0,
            chunks_received: 0,
            chunks_forwarded: 0,
            chunks_timeout: 0,
        };
        assert(r.slot_map() =~= Map::<u64, SlotView>::empty());
        r
    }

    fn remove_slot(&mut self, id: u64) -> (r: Option<BufferSlot>)
        ensures
            r == if old(self).slots@.dom().contains(id) {
                Some(old(self).slots@[id])
            } else {
                None
            },
            final(self).slots@ == old(self).slots@.remove(id),
            *final(self) == (ReassemblyBuffer { slots: final(self).slots, ..*old(self) }),
    {
        proof {
            broadcast use vstd::laws_cmp::group_laws_cmp;
        }
        self.slots.remove(&id)
    }

    fn take_slot(&mut self, id: u64, now_ns: u64) -> (r: BufferSlot)
        ensures
            r@ == old(self).slot_at(id, now_ns),
            final(self).slots@ == old(self).slots@.remove(id),
            *final(self) == (ReassemblyBuffer { slots: final(self).slots, ..*old(self) }),
    {
        match self.remove_slot(id) {
            Some(slot) => slot,
            None => BufferSlot::new(now_ns),
        }
    }

    fn put_slot(&mut self, id: u64, slot: BufferSlot)
        ensures
            final(self).slots@ == old(self).slots@.insert(id, slot),
            *final(self) == (ReassemblyBuffer { slots: final(self).slots, ..*old(self) }),
    {
        proof {
            broadcast use vstd::laws_cmp::group_laws_cmp;
        }
        self.slots.insert(id, slot);
    }

    /// Record announcement (pre-allocates slot).
    pub fn record_announcement(&mut self, ann: AnnouncePacket, now_ns: u64)
        requires
            old(self).wf(),
        ensures
            final(self).wf(),
            *final(self) == (ReassemblyBuffer {
                slots: final(self).slots,
                highest_seen: old(self).highest_with(ann.chunk_id.0),
                ..*old(self)
            }),
            final(self).slot_map() == old(self).slot_map().insert(
                ann.chunk_id.0,
                (SlotView {
                    announcement: Some(ann),
                    expected_link: Some(ann.link_id as usize),
                    ..old(self).slot_at(ann.chunk_id.0, now_ns)
                }),
            ),
    {
        let id: u64 = ann.chunk_id.0;
        if id > self.highest_seen {
            self.highest_seen = id;
        }
        let mut slot: BufferSlot = self.take_slot(id, now_ns);
        slot.announcement = Some(ann);
        slot.expected_link = Some(ann.link_id as usize);
        self.put_slot(id, slot);
        assert(self.slot_map() =~= old(self).slot_map().insert(
            id,
            SlotView {
                announcement: Some(ann),
                expected_link: Some(ann.link_id as usize),
                ..old(self).slot_at(id, now_ns)
            },
        ));
    }

    /// Store received chunk.
    pub fn store_chunk(&mut self, chunk: Chunk, now_ns: u64)
        requires
            old(self).wf(),
            old(self).chunks_received < u64::MAX,
        ensures
            final(self).wf(),
            *final(self) == (ReassemblyBuffer {
                slots: final(self).slots,
                highest_seen: old(self).highest_with(chunk.id.0),
                chunks_received: (old(self).chunks_received + 1) as u64,
                ..*old(self)
            }),
            final(self).slot_map() == old(self).slot_map().insert(
                chunk.id.0,
                (SlotView { chunk: Some(chunk@), ..old(self).slot_at(chunk.id.0, now_ns) }),
            ),
    {
        let id: u64 = chunk.id.0;
        if id > self.highest_seen {
            self.highest_seen = id;
        }
        self.chunks_received = self.chunks_received + 1;
        let mut slot: BufferSlot = self.take_slot(id, now_ns);
        let ghost contents = chunk@;
        slot.chunk = Some(chunk);
        self.put_slot(id, slot);
        assert(self.slot_map() =~= old(self).slot_map().insert(
            id,
            SlotView { chunk: Some(contents), ..old(self).slot_at(id, now_ns) },
        ));
    }

    /// Takes out the listed slots and returns their chunks to forward.
    fn remove_slots(&mut self, ids: &Vec<u64>) -> (r: Vec<Chunk>)
        requires
            old(self).wf(),
            increasing(ids@),
            forall|i: int| 0 <= i < ids@.len() ==> old(self).slots@.dom().contains(#[trigger] ids@[i]),
        ensures
            final(self).wf(),
            *final(self) == (ReassemblyBuffer { slots: final(self).slots, ..*old(self) }),
            final(self).slot_map() == old(self).slot_map().remove_keys(ids@.to_set()),
            r@.map_values(|c: Chunk| c@) == chunks_of(old(self).slot_map(), ids@),
    {
        let ghost slots = old(self).slot_map();
        let ghost keep = |id: u64| slots[id].ready();
        let mut r: Vec<Chunk> = Vec::new();
        let mut i: usize = 0;
        proof {
            lemma_filter_start(ids@, keep);
            assert(r@.map_values(|c: Chunk| c@) =~= ids@.take(0).filter(keep).map_values(
                |id: u64| slots[id].chunk->0,
            ));
        }
        while i < ids.len()
            invariant
                i <= ids@.len(),
                increasing(ids@),
                slots == old(self).slot_map(),
                keep == (|id: u64| slots[id].ready()),
                forall|i: int| 0 <= i < ids@.len() ==> old(self).slots@.dom().contains(#[trigger] ids@[i]),
                *self == (ReassemblyBuffer { slots: self.slots, ..*old(self) }),
                forall|id: u64| #[trigger]
                    self.slots@.dom().contains(id) <==> old(self).slots@.dom().contains(id) && !ids@.take(
                        i as int,
                    ).contains(id),
                forall|id: u64| #[trigger]
                    self.slots@.dom().contains(id) ==> self.slots@[id] == old(self).slots@[id],
                r@.map_values(|c: Chunk| c@) == ids@.take(i as int).filter(keep).map_values(
                    |id: u64| slots[id].chunk->0,
                ),
            decreases ids.len() - i,
        {
            let id: u64 = ids[i];
            let ghost before = self.slots@;
            let ghost sent = r@.map_values(|c: Chunk| c@);
            proof {
                lemma_filter_step(ids@, keep, i as int);
                let seen = ids@.take(i + 0);
                assert(!seen.contains(id)) by {
                    if seen.contains(id) {
                        let j = choose|j: int| 0 <= j < i && seen[j] == id;
                        assert(ids@[j] < ids@[i + 0]);
                    }
                }
                assert(old(self).slots@.dom().contains(ids@[i + 0]));
                lemma_take_contains(ids@, i + 0);
            }
            if let Some(slot) = self.remove_slot(id) {
                assert(slot == old(self).slots@[id]);
                if !slot.forwarded {
                    if let Some(chunk) = slot.chunk {
                        r.push(chunk);
                        assert(r@.map_values(|c: Chunk| c@) =~= sent.push(chunk@));
                    }
                }
            }
            proof {
                let f = |id: u64| slots[id].chunk->0;
                let kept = ids@.take(i + 0).filter(keep);
                if keep(id) {
                    assert(kept.push(id).map_values(f) =~= kept.map_values(f).push(f(id)));
                }
            }
            i = i + 1;
        }
        proof {
            lemma_filter_start(ids@, keep);
            assert forall|id: u64| ids@.to_set().contains(id) == ids@.contains(id) by {}
        }
        assert(self.slot_map() =~= old(self).slot_map().remove_keys(ids@.to_set()));
        r
    }
}

impl ReassemblyBuffer {
    fn slot(&self, id: u64) -> (r: Option<&BufferSlot>)
        ensures
            r is Some == self.slots@.dom().contains(id),
            r is Some ==> *r->0 == self.slots@[id],
    {
        proof {
            broadcast use vstd::laws_cmp::group_laws_cmp;
        }
        self.slots.get(&id)
    }

    fn slot_is_ready(&self, id: u64) -> (r: bool)
        requires
            self.slots@.dom().contains(id),
        ensures
            r == self.slot_map()[id].ready(),
    {
        match self.slot(id) {
            Some(slot) => slot.is_ready(),
            None => false,
        }
    }

    fn slot_is_late(&self, id: u64, timeout_ns: u128, now_ns: u64) -> (r: bool)
        requires
            self.slots@.dom().contains(id),
        ensures
            r == self.slot_map()[id].late(timeout_ns as int, now_ns),
    {
        match self.slot(id) {
            Some(slot) => slot.is_timed_out(timeout_ns, now_ns),
            None => false,
        }
    }

    /// How far an in-order drain gets.
    fn measure_walk(&self, ids: &Vec<u64>, now_ns: u64) -> (r: (usize, u128, u128))
        requires
            ids@ == listing(self.slots@.dom()),
            ids@.to_set() == self.slots@.dom(),
            increasing(ids@),
        ensures
            self.walk_at(now_ns) == (Walk { taken: r.0 as nat, next: r.1 as nat, skipped: r.2 as nat }),
            r.0 <= ids@.len(),
            r.2 <= 0x1_0000_0000_0000_0000,
    {
        let timeout: u128 = self.config.reorder_timeout_ms as u128 * 1_000_000;
        let ghost slots = self.slot_map();
        let mut i: usize = 0;
        let mut next: u128 = self.next_expected as u128;
        let mut skipped: u128 = 0;
        proof {
            assert(slots.dom() =~= self.slots@.dom());
            assert(ids@.skip(0) =~= ids@);
        }
        while i < ids.len()
            invariant
                i <= ids@.len(),
                increasing(ids@),
                ids@.to_set() == self.slots@.dom(),
                slots == self.slot_map(),
                timeout == self.config.reorder_timeout_ms * 1_000_000,
                i == 0 ==> next == self.next_expected && skipped == 0,
                i > 0 ==> next == ids@[i - 1] + 1 && skipped <= ids@[i - 1] + 1,
                self.walk_at(now_ns) == ({
                    let w = walk(slots, ids@.skip(i as int), next as nat, timeout as int, now_ns);
                    Walk { taken: i as nat + w.taken, next: w.next, skipped: skipped as nat + w.skipped }
                }),
            decreases ids.len() - i,
        {
            let id: u64 = ids[i];
            proof {
                assert(ids@.to_set().contains(ids@[i as int]));
                assert(ids@.skip(i as int)[0] == id);
                assert(ids@.skip(i as int).drop_first() =~= ids@.skip(i + 1));
            }
            let ready: bool = self.slot_is_ready(id);
            let late: bool = self.slot_is_late(id, timeout, now_ns);
            if !late && (id as u128 > next || !ready) {
                return (i, next, skipped);
            }
            if id as u128 > next {
                skipped = skipped + (id as u128 - next);
            }
            if !ready {
                skipped = skipped + 1;
            }
            next = id as u128 + 1;
            i = i + 1;
        }
        assert(ids@.skip(i as int) =~= Seq::<u64>::empty());
        (i, next, skipped)
    }

    fn ready_ids(&self, ids: &Vec<u64>) -> (r: Vec<u64>)
        requires
            ids@.to_set() == self.slots@.dom(),
            increasing(ids@),
        ensures
            r@ == ids@.filter(|id: u64| self.slot_map()[id].ready()),
            increasing(r@),
            forall|i: int| 0 <= i < r@.len() ==> self.slots@.dom().contains(#[trigger] r@[i]),
    {
        let ghost keep = |id: u64| self.slot_map()[id].ready();
        let mut r: Vec<u64> = Vec::new();
        let mut i: usize = 0;
        proof {
            lemma_filter_start(ids@, keep);
        }
        while i < ids.len()
            invariant
                i <= ids@.len(),
                ids@.to_set() == self.slots@.dom(),
                increasing(ids@),
                keep == (|id: u64| self.slot_map()[id].ready()),
                r@ == ids@.take(i as int).filter(keep),
                increasing(r@),
                forall|j: int| 0 <= j < r@.len() ==> self.slots@.dom().contains(#[trigger] r@[j]),
                i < ids@.len() ==> forall|j: int| 0 <= j < r@.len() ==> #[trigger] r@[j] < ids@[i as int],
            decreases ids.len() - i,
        {
            let id: u64 = ids[i];
            proof {
                lemma_filter_step(ids@, keep, i as int);
                assert(ids@.to_set().contains(ids@[i as int]));
            }
            if self.slot_is_ready(id) {
                r.push(id);
            }
            i = i + 1;
        }
        r
    }

    fn late_ids(&self, ids: &Vec<u64>, timeout_ns: u128, now_ns: u64) -> (r: Vec<u64>)
        requires
            ids@.to_set() == self.slots@.dom(),
            increasing(ids@),
        ensures
            r@.to_set() == self.slot_map().dom().filter(
                |id: u64| self.slot_map()[id].late(timeout_ns as int, now_ns),
            ),
            increasing(r@),
            forall|i: int| 0 <= i < r@.len() ==> self.slots@.dom().contains(#[trigger] r@[i]),
    {
        let mut r: Vec<u64> = Vec::new();
        let mut i: usize = 0;
        while i < ids.len()
            invariant
                i <= ids@.len(),
                ids@.to_set() == self.slots@.dom(),
                increasing(ids@),
                increasing(r@),
                forall|j: int| 0 <= j < r@.len() ==> self.slots@.dom().contains(#[trigger] r@[j]),
                i < ids@.len() ==> forall|j: int| 0 <= j < r@.len() ==> #[trigger] r@[j] < ids@[i as int],
                forall|x: u64| #[trigger]
                    r@.contains(x) <==> ids@.take(i as int).contains(x) && self.slot_map()[x].late(
                        timeout_ns as int,
                        now_ns,
                    ),
            decreases ids.len() - i,
        {
            let id: u64 = ids[i];
            let ghost before = r@;
            proof {
                lemma_take_contains(ids@, i as int);
                assert(ids@.to_set().contains(ids@[i as int]));
            }
            if self.slot_is_late(id, timeout_ns, now_ns) {
                r.push(id);
                assert(r@.take(before.len() as int) =~= before);
                proof {
                    lemma_take_contains(r@, before.len() as int);
                    assert(r@.take(before.len() as int + 1) =~= r@);
                }
            }
            i = i + 1;
        }
        proof {
            assert(ids@.take(i as int) =~= ids@);
            let late = self.slot_map().dom().filter(
                |id: u64| self.slot_map()[id].late(timeout_ns as int, now_ns),
            );
            assert forall|x: u64| r@.to_set().contains(x) == late.contains(x) by {
                assert(r@.to_set().contains(x) == r@.contains(x));
                assert(ids@.to_set().contains(x) == ids@.contains(x));
            }
            assert(r@.to_set() =~= late);
        }
        r
    }

    /// Prunes slots that are too many or too old.
    fn prune_old_slots(&mut self, now_ns: u64)
        requires
            old(self).wf(),
            old(self).config.reorder_timeout_ms * 10 <= u64::MAX,
            old(self).chunks_timeout + monus(
                old(self).slot_map().dom().len(),
                old(self).config.max_buffer_chunks as nat,
            ) <= u64::MAX,
        ensures
            final(self).wf(),
            *final(self) == (ReassemblyBuffer {
                slots: final(self).slots,
                chunks_timeout: final(self).chunks_timeout,
                ..*old(self)
            }),
            final(self).chunks_timeout == old(self).chunks_timeout + monus(
                old(self).slot_map().dom().len(),
                old(self).config.max_buffer_chunks as nat,
            ),
            final(self).slot_map() == without_late(
                trimmed(old(self).slot_map(), old(self).config.max_buffer_chunks as nat),
                old(self).config.reorder_timeout_ms * 10 * 1_000_000,
                now_ns,
            ),
    {
        let ids: Vec<u64> = sorted_ids(&self.slots);
        let ghost before = self.slot_map();
        assert(before.dom() =~= self.slots@.dom());
        let excess: usize = ids.len().saturating_sub(self.config.max_buffer_chunks);
        let surplus: Vec<u64> = first_ids(&ids, excess);
        proof {
            assert forall|i: int| 0 <= i < surplus@.len() implies self.slots@.dom().contains(#[trigger] surplus@[i]) by {
                assert(ids@.to_set().contains(ids@[i]));
            }
        }
        let _dropped: Vec<Chunk> = self.remove_slots(&surplus);
        self.chunks_timeout = self.chunks_timeout + excess as u64;
        assert(self.slot_map() == trimmed(before, self.config.max_buffer_chunks as nat));
        let left: Vec<u64> = sorted_ids(&self.slots);
        let timeout: u128 = (self.config.reorder_timeout_ms * 10) as u128 * 1_000_000;
        let late: Vec<u64> = self.late_ids(&left, timeout, now_ns);
        let _expired: Vec<Chunk> = self.remove_slots(&late);
    }

    /// Forwards whatever may go: in immediate mode every chunk there is,
    /// otherwise chunks in order, waiting for missing ones up to the timeout.
    pub fn drain_ready(&mut self, now_ns: u64) -> (r: Vec<Chunk>)
        requires
            old(self).wf(),
            old(self).can_drain_at(now_ns),
        ensures
            final(self).wf(),
            r@.map_values(|c: Chunk| c@) == old(self).drained(now_ns),
            final(self).slot_map() == old(self).kept(now_ns),
            final(self).next_expected == old(self).next_after(now_ns),
            final(self).chunks_timeout == old(self).timeouts_after(now_ns),
            final(self).chunks_forwarded == old(self).chunks_forwarded + r@.len(),
            final(self).config == old(self).config,
            final(self).highest_seen == old(self).highest_seen,
            final(self).chunks_received == old(self).chunks_received,
    {
        let ids: Vec<u64> = sorted_ids(&self.slots);
        assert(self.slot_map().dom() =~= self.slots@.dom());
        let chosen: Vec<u64> = if self.config.immediate_forward {
            self.ready_ids(&ids)
        } else {
            let (taken, next, skipped): (usize, u128, u128) = self.measure_walk(&ids, now_ns);
            self.next_expected = next as u64;
            self.chunks_timeout = (self.chunks_timeout as u128 + skipped) as u64;
            let first: Vec<u64> = first_ids(&ids, taken);
            proof {
                assert forall|i: int| 0 <= i < first@.len() implies self.slots@.dom().contains(
                    #[trigger] first@[i],
                ) by {
                    assert(ids@.to_set().contains(ids@[i]));
                }
            }
            first
        };
        assert(self.slot_map() == old(self).slot_map());
        let ready: Vec<Chunk> = self.remove_slots(&chosen);
        assert(ready@.map_values(|c: Chunk| c@).len() == ready@.len());
        self.chunks_forwarded = self.chunks_forwarded + ready.len() as u64;
        self.prune_old_slots(now_ns);
        ready
    }

    /// Whether [`ReassemblyBuffer::drain_ready`] can drain.
    pub fn can_drain(&self, now_ns: u64) -> (r: bool)
        requires
            self.wf(),
        ensures
            r == self.can_drain_at(now_ns),
    {
        if self.config.reorder_timeout_ms > u64::MAX / 10 {
            return false;
        }
        let ids: Vec<u64> = sorted_ids(&self.slots);
        assert(self.slot_map().dom() =~= self.slots@.dom());
        let (chosen, next, skipped): (Vec<u64>, u128, u128) = if self.config.immediate_forward {
            (self.ready_ids(&ids), self.next_expected as u128, 0)
        } else {
            let (taken, next, skipped): (usize, u128, u128) = self.measure_walk(&ids, now_ns);
            (first_ids(&ids, taken), next, skipped)
        };
        proof {
            assert(chosen@ == self.drained_ids(now_ns));
            assert forall|i: int| 0 <= i < chosen@.len() implies self.slots@.dom().contains(#[trigger] chosen@[i]) by {
                if !self.config.immediate_forward {
                    assert(ids@.to_set().contains(ids@[i]));
                }
            }
            lemma_left(self.slot_map(), chosen@);
        }
        let left: usize = ids.len() - chosen.len();
        let excess: usize = left.saturating_sub(self.config.max_buffer_chunks);
        let forwarded: Vec<u64> = self.ready_among(&chosen);
        next <= u64::MAX as u128 && self.chunks_timeout as u128 + skipped + excess as u128 <= u64::MAX as u128
            && forwarded.len() as u64 <= u64::MAX - self.chunks_forwarded
    }

    fn ready_among(&self, ids: &Vec<u64>) -> (r: Vec<u64>)
        requires
            forall|i: int| 0 <= i < ids@.len() ==> self.slots@.dom().contains(#[trigger] ids@[i]),
        ensures
            r@ == ids@.filter(|id: u64| self.slot_map()[id].ready()),
            r@.len() == chunks_of(self.slot_map(), ids@).len(),
    {
        let ghost keep = |id: u64| self.slot_map()[id].ready();
        let mut r: Vec<u64> = Vec::new();
        let mut i: usize = 0;
        proof {
            lemma_filter_start(ids@, keep);
        }
        while i < ids.len()
            invariant
                i <= ids@.len(),
                forall|i: int| 0 <= i < ids@.len() ==> self.slots@.dom().contains(#[trigger] ids@[i]),
                keep == (|id: u64| self.slot_map()[id].ready()),
                r@ == ids@.take(i as int).filter(keep),
            decreases ids.len() - i,
        {
            let id: u64 = ids[i];
            proof {
                lemma_filter_step(ids@, keep, i as int);
            }
            if self.slot_is_ready(id) {
                r.push(id);
            }
            i = i + 1;
        }
        r
    }

    /// Buffer statistics.
    pub fn stats(&self) -> (r: ReassemblyStats)
        ensures
            r == (ReassemblyStats {
                buffered: self.slot_map().dom().len() as usize,
                ready: self.ready_slots().len() as usize,
                next_expected: self.next_expected,
                highest_seen: self.highest_seen,
                chunks_received: self.chunks_received,
                chunks_forwarded: self.chunks_forwarded,
                chunks_timeout: self.chunks_timeout,
            }),
            r.buffered == self.slot_map().dom().len(),
            r.ready <= r.buffered,
    {
        let ids: Vec<u64> = sorted_ids(&self.slots);
        assert(self.slot_map().dom() =~= self.slots@.dom());
        let ready: Vec<u64> = self.ready_ids(&ids);
        proof {
            ids@.lemma_filter_len(|id: u64| self.slot_map()[id].ready());
        }
        ReassemblyStats {
            buffered: ids.len(),
            ready: ready.len(),
            next_expected: self.next_expected,
            highest_seen: self.highest_seen,
            chunks_received: self.chunks_received,
            chunks_forwarded: self.chunks_forwarded,
            chunks_timeout: self.chunks_timeout,
        }
    }
}

fn first_ids(ids: &Vec<u64>, n: usize) -> (r: Vec<u64>)
    requires
        n <= ids@.len(),
    ensures
        r@ == ids@.take(n as int),
        increasing(ids@) ==> increasing(r@),
{
    let mut r: Vec<u64> = Vec::new();
    let mut i: usize = 0;
    while i < n
        invariant
            i <= n <= ids@.len(),
            r@ == ids@.take(i as int),
        decreases n - i,
    {
        r.push(ids[i]);
        i = i + 1;
        assert(r@ =~= ids@.take(i as int));
    }
    r
}

/// Taking listed slots out leaves the others.
proof fn lemma_left(slots: Map<u64, SlotView>, ids: Seq<u64>)
    requires
        slots.dom().finite(),
        increasing(ids),
        forall|i: int| 0 <= i < ids.len() ==> slots.dom().contains(#[trigger] ids[i]),
    ensures
        slots.remove_keys(ids.to_set()).dom().len() + ids.len() == slots.dom().len(),
    decreases ids.len(),
{
    if ids.len() == 0 {
        assert(slots.remove_keys(ids.to_set()) =~= slots);
    } else {
        let shorter = ids.drop_last();
        assert forall|i: int| 0 <= i < shorter.len() implies slots.dom().contains(#[trigger] shorter[i]) by {
            assert(shorter[i] == ids[i]);
        }
        lemma_left(slots, shorter);
        let last = ids.last();
        assert(slots.dom().contains(ids[ids.len() - 1]));
        let before = slots.remove_keys(shorter.to_set());
        assert(before.dom() =~= slots.dom().difference(shorter.to_set()));
        assert(!shorter.contains(last));
        assert(before.dom().contains(last));
        assert(slots.remove_keys(ids.to_set()).dom() =~= before.dom().remove(last)) by {
            lemma_take_contains(ids, ids.len() - 1);
            assert(ids.take(ids.len() - 1) =~= shorter);
            assert(ids.take(ids.len() - 1 + 1) =~= ids);
            assert forall|x: u64| ids.to_set().contains(x) <==> shorter.to_set().contains(x) || x == last by {
                assert(ids.to_set().contains(x) == ids.contains(x));
                assert(shorter.to_set().contains(x) == shorter.contains(x));
            }
        }
    }
}

proof fn lemma_take_contains(s: Seq<u64>, i: int)
    requires
        0 <= i < s.len(),
    ensures
        forall|x: u64| #[trigger] s.take(i + 1).contains(x) <==> s.take(i).contains(x) || x == s[i],
{
    assert forall|x: u64| #[trigger] s.take(i + 1).contains(x) <==> s.take(i).contains(x) || x == s[i] by {
        if s.take(i).contains(x) {
            let j = choose|j: int| 0 <= j < i && s.take(i)[j] == x;
            assert(s.take(i + 1)[j] == x);
        }
        if x == s[i] {
            assert(s.take(i + 1)[i] == x);
        }
        if s.take(i + 1).contains(x) {
            let j = choose|j: int| 0 <= j < i + 1 && #[trigger] s.take(i + 1)[j] == x;
            if j < i {
                assert(s.take(i)[j] == x);
            }
        }
    }
}

// ---------------------------------------------------------------------------
// The receiver
// ---------------------------------------------------------------------------

/// Chunk receiver combining multiple links.
#[derive(Debug)]
pub struct ChunkReceiver {
    /// Link that each chunk was announced on
    pub announcement_link: HashMap<u64, usize>,
    /// Reassembly buffer
    pub buffer: ReassemblyBuffer,
}

impl ChunkReceiver {
    pub open spec fn wf(self) -> bool {
        self.buffer.wf()
    }

    /// A receiver with an empty buffer.
    pub fn new(config: ReceiverConfig) -> (r: ChunkReceiver)
        ensures
            r.wf(),
            r.announcement_link@ == Map::<u64, usize>::empty(),
            r.buffer.config == config,
            r.buffer.slot_map() == Map::<u64, SlotView>::empty(),
            r.buffer.next_expected == 0,
            r.buffer.highest_seen == 0,
            r.buffer.chunks_received == 0,
            r.buffer.chunks_forwarded == 0,
            r.buffer.chunks_timeout == 0,
    {
        ChunkReceiver { announcement_link: HashMap::new(), buffer: ReassemblyBuffer::new(config) }
    }

    /// Handle announcement.
    pub fn handle_announcement(&mut self, ann: AnnouncePacket, now_ns: u64)
        requires
            old(self).wf(),
        ensures
            final(self).wf(),
            final(self).announcement_link@ == old(self).announcement_link@.insert(
                ann.chunk_id.0,
                ann.link_id as usize,
            ),
            final(self).buffer == (ReassemblyBuffer {
                slots: final(self).buffer.slots,
                highest_seen: old(self).buffer.highest_with(ann.chunk_id.0),
                ..old(self).buffer
            }),
            final(self).buffer.slot_map() == old(self).buffer.slot_map().insert(
                ann.chunk_id.0,
                (SlotView {
                    announcement: Some(ann),
                    expected_link: Some(ann.link_id as usize),
                    ..old(self).buffer.slot_at(ann.chunk_id.0, now_ns)
                }),
            ),
    {
        self.announcement_link.insert(ann.chunk_id.0, ann.link_id as usize);
        self.buffer.record_announcement(ann, now_ns);
    }

    /// Handle chunk data.
    pub fn handle_chunk(&mut self, chunk: Chunk, now_ns: u64)
        requires
            old(self).wf(),
            old(self).buffer.chunks_received < u64::MAX,
        ensures
            final(self).wf(),
            final(self).announcement_link == old(self).announcement_link,
            final(self).buffer == (ReassemblyBuffer {
                slots: final(self).buffer.slots,
                highest_seen: old(self).buffer.highest_with(chunk.id.0),
                chunks_received: (old(self).buffer.chunks_received + 1) as u64,
                ..old(self).buffer
            }),
            final(self).buffer.slot_map() == old(self).buffer.slot_map().insert(
                chunk.id.0,
                (SlotView { chunk: Some(chunk@), ..old(self).buffer.slot_at(chunk.id.0, now_ns) }),
            ),
    {
        self.buffer.store_chunk(chunk, now_ns);
    }

    /// Set the reorder timeout.
    pub fn set_reorder_timeout_ms(&mut self, timeout_ms: u64)
        requires
            old(self).wf(),
        ensures
            final(self).wf(),
            final(self).announcement_link == old(self).announcement_link,
            final(self).buffer == (ReassemblyBuffer {
                config: (ReceiverConfig { reorder_timeout_ms: timeout_ms, ..old(self).buffer.config }),
                ..old(self).buffer
            }),
    {
        self.buffer.config.reorder_timeout_ms = timeout_ms;
    }

    /// Drain ready chunks.
    pub fn drain(&mut self, now_ns: u64) -> (r: Vec<Chunk>)
        requires
            old(self).wf(),
            old(self).buffer.can_drain_at(now_ns),
        ensures
            final(self).wf(),
            final(self).announcement_link == old(self).announcement_link,
            r@.map_values(|c: Chunk| c@) == old(self).buffer.drained(now_ns),
            final(self).buffer.slot_map() == old(self).buffer.kept(now_ns),
            final(self).buffer.next_expected == old(self).buffer.next_after(now_ns),
            final(self).buffer.chunks_timeout == old(self).buffer.timeouts_after(now_ns),
            final(self).buffer.chunks_forwarded == old(self).buffer.chunks_forwarded + r@.len(),
            final(self).buffer.config == old(self).buffer.config,
            final(self).buffer.highest_seen == old(self).buffer.highest_seen,
            final(self).buffer.chunks_received == old(self).buffer.chunks_received,
    {
        self.buffer.drain_ready(now_ns)
    }

    /// Reassembly statistics.
    pub fn stats(&self) -> (r: ReassemblyStats)
        ensures
            r == (ReassemblyStats {
                buffered: self.buffer.slot_map().dom().len() as usize,
                ready: listing(self.buffer.slot_map().dom()).filter(
                    |id: u64| self.buffer.slot_map()[id].ready(),
                ).len() as usize,
                next_expected: self.buffer.next_expected,
                highest_seen: self.buffer.highest_seen,
                chunks_received: self.buffer.chunks_received,
                chunks_forwarded: self.buffer.chunks_forwarded,
                chunks_timeout: self.buffer.chunks_timeout,
            }),
            r.buffered == self.buffer.slot_map().dom().len(),
            r.ready <= r.buffered,
    {
        self.buffer.stats()
    }
}

// ---------------------------------------------------------------------------
// Laws
// ---------------------------------------------------------------------------

/// A finite set has its listing.
proof fn lemma_listing_exists(set: Set<u64>)
    requires
        set.finite(),
    ensures
        increasing(listing(set)),
        listing(set).to_set() == set,
        listing(set).len() == set.len(),
    decreases set.len(),
{
    if set.len() == 0 {
        let none = Seq::<u64>::empty();
        assert(none.to_set() =~= set);
        assert(increasing(none));
        lemma_listing(none, set);
    } else {
        let greatest = lemma_greatest(set);
        let rest = set.remove(greatest);
        lemma_listing_exists(rest);
        let s = listing(rest).push(greatest);
        assert forall|i: int, j: int| 0 <= i < j < s.len() implies s[i] < s[j] by {
            if j == s.len() - 1 {
                assert(listing(rest).to_set().contains(listing(rest)[i]));
            }
        }
        assert(s.to_set() =~= set) by {
            assert forall|x: u64| s.contains(x) <==> set.contains(x) by {
                assert(listing(rest).to_set().contains(x) == listing(rest).contains(x));
                if x == greatest {
                    assert(s[s.len() - 1] == x);
                }
                if listing(rest).contains(x) {
                    let j = choose|j: int| 0 <= j < listing(rest).len() && listing(rest)[j] == x;
                    assert(s[j] == x);
                }
                if s.contains(x) {
                    let j = choose|j: int| 0 <= j < s.len() && s[j] == x;
                    if j < listing(rest).len() {
                        assert(listing(rest)[j] == x);
                    }
                }
            }
        }
        lemma_listing(s, set);
    }
}

proof fn lemma_greatest(set: Set<u64>) -> (greatest: u64)
    requires
        set.finite(),
        set.len() > 0,
    ensures
        set.contains(greatest),
        forall|x: u64| #[trigger] set.contains(x) ==> x <= greatest,
    decreases set.len(),
{
    let one = set.choose();
    let rest = set.remove(one);
    if rest.len() == 0 {
        assert forall|x: u64| #[trigger] set.contains(x) implies x <= one by {
            if x != one {
                assert(rest.contains(x));
            }
        }
        one
    } else {
        let other = lemma_greatest(rest);
        let greatest = if one > other {
            one
        } else {
            other
        };
        assert forall|x: u64| #[trigger] set.contains(x) implies x <= greatest by {
            if x != one {
                assert(rest.contains(x));
            }
        }
        greatest
    }
}

proof fn lemma_filter_increasing(s: Seq<u64>, keep: spec_fn(u64) -> bool)
    requires
        increasing(s),
    ensures
        increasing(s.filter(keep)),
        forall|i: int| 0 <= i < s.filter(keep).len() ==> s.contains(#[trigger] s.filter(keep)[i]),
    decreases s.len(),
{
    reveal(Seq::filter);
    if s.len() > 0 {
        let shorter = s.drop_last();
        lemma_filter_increasing(shorter, keep);
        let kept = shorter.filter(keep);
        assert forall|i: int| 0 <= i < kept.len() implies s.contains(#[trigger] kept[i]) && kept[i] < s.last() by {
            assert(shorter.contains(kept[i]));
            let j = choose|j: int| 0 <= j < shorter.len() && shorter[j] == kept[i];
            assert(s[j] == kept[i]);
        }
        assert(s.contains(s[s.len() - 1]));
        let all = s.filter(keep);
        assert forall|i: int| 0 <= i < all.len() implies s.contains(#[trigger] all[i]) by {
            if i < kept.len() {
                assert(all[i] == kept[i]);
            }
        }
    }
}

proof fn lemma_walk_in_range(slots: Map<u64, SlotView>, ids: Seq<u64>, next: nat, timeout_ns: int, now_ns: u64)
    ensures
        walk(slots, ids, next, timeout_ns, now_ns).taken <= ids.len(),
    decreases ids.len(),
{
    if ids.len() > 0 {
        lemma_walk_in_range(slots, ids.drop_first(), ids[0] as nat + 1, timeout_ns, now_ns);
    }
}

proof fn lemma_drained_ids(b: ReassemblyBuffer, now_ns: u64)
    requires
        b.slot_map().dom().finite(),
    ensures
        increasing(b.drained_ids(now_ns)),
        forall|i: int|
            0 <= i < b.drained_ids(now_ns).len() ==> b.slot_map().dom().contains(#[trigger] b.drained_ids(now_ns)[i]),
{
    lemma_listing_exists(b.slot_map().dom());
    let ids = listing(b.slot_map().dom());
    lemma_filter_increasing(ids, |id: u64| b.slot_map()[id].ready());
    lemma_walk_in_range(
        b.slot_map(),
        ids,
        b.next_expected as nat,
        b.config.reorder_timeout_ms * 1_000_000,
        now_ns,
    );
    let drained = b.drained_ids(now_ns);
    assert forall|i: int| 0 <= i < drained.len() implies b.slot_map().dom().contains(#[trigger] drained[i]) by {
        if b.config.immediate_forward {
            assert(ids.contains(drained[i]));
            assert(ids.to_set().contains(drained[i]));
        } else {
            assert(ids.to_set().contains(ids[i]));
        }
    }
}

/// Whatever the mode, the chunks of one drain come out by increasing ID, each
/// at most once.
pub proof fn law_drained_in_order(b: ReassemblyBuffer, now_ns: u64, i: int, j: int)
    requires
        b.wf(),
        0 <= i < j < b.drained(now_ns).len(),
    ensures
        b.drained(now_ns)[i].id.0 < b.drained(now_ns)[j].id.0,
{
    assert(b.slot_map().dom() =~= b.slots@.dom());
    lemma_drained_ids(b, now_ns);
    let keep = |id: u64| b.slot_map()[id].ready();
    lemma_filter_increasing(b.drained_ids(now_ns), keep);
    let ids = b.drained_ids(now_ns).filter(keep);
    assert forall|k: int| 0 <= k < ids.len() implies b.drained(now_ns)[k].id.0 == #[trigger] ids[k] by {
        b.drained_ids(now_ns).lemma_filter_pred(keep, k);
        assert(b.drained_ids(now_ns).contains(ids[k]));
        let p = choose|p: int| 0 <= p < b.drained_ids(now_ns).len() && b.drained_ids(now_ns)[p] == ids[k];
        assert(b.slots@.dom().contains(b.drained_ids(now_ns)[p]));
    }
    assert(ids[i] < ids[j]);
}

/// What was stored comes out: in immediate mode a drain forwards every chunk
/// there is, and leaves none behind.
pub proof fn law_immediate_drain_forwards_all(b: ReassemblyBuffer, now_ns: u64, id: u64)
    requires
        b.config.immediate_forward,
        b.slot_map().dom().contains(id),
        b.slot_map()[id].ready(),
    ensures
        b.drained(now_ns).contains(b.slot_map()[id].chunk->0),
        !b.kept(now_ns).dom().contains(id),
{
    assert(b.slot_map().dom() =~= b.slots@.dom());
    lemma_listing_exists(b.slot_map().dom());
    let ids = listing(b.slot_map().dom());
    let keep = |id: u64| b.slot_map()[id].ready();
    assert(ids.to_set().contains(id));
    let p = choose|p: int| 0 <= p < ids.len() && ids[p] == id;
    ids.lemma_filter_contains(keep, p);
    let chosen = b.drained_ids(now_ns);
    assert(chosen == ids.filter(keep));
    let q = choose|q: int| 0 <= q < chosen.len() && chosen[q] == id;
    chosen.lemma_filter_contains(keep, q);
    let sent = chosen.filter(keep);
    let r = choose|r: int| 0 <= r < sent.len() && sent[r] == id;
    assert(b.drained(now_ns)[r] == b.slot_map()[id].chunk->0);
    assert(chosen.to_set().contains(id));
}

/// A call on a buffer.
pub enum BufferCall {
    StoreChunk { chunk: ChunkContents, now_ns: u64 },
    RecordAnnouncement { ann: AnnouncePacket, now_ns: u64 },
    DrainReady { now_ns: u64 },
}

impl ReassemblyBuffer {
    /// Whether a call leads from this buffer to another one.
    pub open spec fn steps_to(self, call: BufferCall, after: ReassemblyBuffer) -> bool {
        &&& after.config == self.config
        &&& match call {
            BufferCall::StoreChunk { chunk, now_ns } => {
                &&& after.chunks_forwarded == self.chunks_forwarded
                &&& after.slot_map() == self.slot_map().insert(
                    chunk.id.0,
                    SlotView { chunk: Some(chunk), ..self.slot_at(chunk.id.0, now_ns) },
                )
            },
            BufferCall::RecordAnnouncement { ann, now_ns } => {
                &&& after.chunks_forwarded == self.chunks_forwarded
                &&& after.slot_map() == self.slot_map().insert(
                    ann.chunk_id.0,
                    SlotView {
                        announcement: Some(ann),
                        expected_link: Some(ann.link_id as usize),
                        ..self.slot_at(ann.chunk_id.0, now_ns)
                    },
                )
            },
            BufferCall::DrainReady { now_ns } => {
                &&& after.chunks_forwarded == self.chunks_forwarded + self.drained(now_ns).len()
                &&& after.slot_map() == self.kept(now_ns)
            },
        }
    }
}

/// Whether the calls lead from each buffer to the next.
pub open spec fn buffer_run(states: Seq<ReassemblyBuffer>, calls: Seq<BufferCall>) -> bool {
    &&& states.len() == calls.len() + 1
    &&& forall|k: int| #![trigger calls[k]] 0 <= k < calls.len() ==> states[k].steps_to(calls[k], states[k + 1])
}

/// The chunks that the first `k` calls stored since the last drain among them,
/// the latest one of each ID.
pub open spec fn stored_since(calls: Seq<BufferCall>, k: nat) -> Map<u64, ChunkContents>
    decreases k,
{
    if k == 0 {
        Map::empty()
    } else {
        let before = stored_since(calls, (k - 1) as nat);
        match calls[k - 1] {
            BufferCall::StoreChunk { chunk, .. } => before.insert(chunk.id.0, chunk),
            BufferCall::RecordAnnouncement { .. } => before,
            BufferCall::DrainReady { .. } => Map::empty(),
        }
    }
}

/// Whether the slots hold the given chunks and no others, none forwarded.
pub open spec fn holds(slots: Map<u64, SlotView>, chunks: Map<u64, ChunkContents>) -> bool {
    &&& forall|id: u64| #[trigger]
        chunks.dom().contains(id) <==> slots.dom().contains(id) && slots[id].chunk is Some
    &&& forall|id: u64| #[trigger] chunks.dom().contains(id) ==> slots[id].chunk == Some(chunks[id])
    &&& forall|id: u64| #[trigger] slots.dom().contains(id) ==> !slots[id].forwarded
}

proof fn lemma_ready_are_held(b: ReassemblyBuffer, chunks: Map<u64, ChunkContents>)
    requires
        holds(b.slot_map(), chunks),
    ensures
        b.ready_slots() == listing(chunks.dom()),
        b.ready_slots().to_set() == chunks.dom(),
        increasing(b.ready_slots()),
{
    assert(b.slot_map().dom() =~= b.slots@.dom());
    lemma_listing_exists(b.slot_map().dom());
    let ids = listing(b.slot_map().dom());
    let keep = |id: u64| b.slot_map()[id].ready();
    let ready = ids.filter(keep);
    lemma_filter_increasing(ids, keep);
    assert forall|id: u64| ready.to_set().contains(id) <==> chunks.dom().contains(id) by {
        if ready.contains(id) {
            let q = choose|q: int| 0 <= q < ready.len() && ready[q] == id;
            ids.lemma_filter_pred(keep, q);
            assert(ids.contains(id));
            assert(ids.to_set().contains(id));
        }
        if chunks.dom().contains(id) {
            assert(ids.to_set().contains(id));
            let p = choose|p: int| 0 <= p < ids.len() && ids[p] == id;
            ids.lemma_filter_contains(keep, p);
        }
    }
    assert(ready.to_set() =~= chunks.dom());
    lemma_listing(ready, chunks.dom());
}

proof fn lemma_run_holds(states: Seq<ReassemblyBuffer>, calls: Seq<BufferCall>, k: nat)
    requires
        states.len() > 0,
        states[0].config.immediate_forward,
        states[0].slot_map() == Map::<u64, SlotView>::empty(),
        buffer_run(states, calls),
        k <= calls.len(),
    ensures
        states[k as int].config == states[0].config,
        holds(states[k as int].slot_map(), stored_since(calls, k)),
    decreases k,
{
    if k > 0 {
        let p = (k - 1) as nat;
        lemma_run_holds(states, calls, p);
        let before = states[p as int];
        let call = calls[p as int];
        assert(before.steps_to(call, states[k as int]));
        assert(before.slot_map().dom() =~= before.slots@.dom());
        let slots = states[k as int].slot_map();
        match call {
            BufferCall::StoreChunk { chunk, now_ns } => {
                assert(holds(slots, stored_since(calls, k)));
            },
            BufferCall::RecordAnnouncement { ann, now_ns } => {
                let id = ann.chunk_id.0;
                assert(before.slot_map().dom().contains(id) ==> before.slot_at(id, now_ns) == before.slot_map()[id]);
                assert(holds(slots, stored_since(calls, k)));
            },
            BufferCall::DrainReady { now_ns } => {
                lemma_ready_are_held(before, stored_since(calls, p));
                assert(before.drained_ids(now_ns) == before.ready_slots());
                assert forall|id: u64| #[trigger] slots.dom().contains(id) implies slots[id].chunk is None
                    && !slots[id].forwarded by {
                    assert(before.slot_map().dom().contains(id));
                    assert(!before.ready_slots().to_set().contains(id));
                    assert(!stored_since(calls, p).dom().contains(id));
                }
                assert(holds(slots, stored_since(calls, k)));
            },
        }
    }
}

/// In immediate mode, whatever was stored, announced and drained before, a
/// drain forwards exactly the chunks stored since the last one, the latest of
/// each ID, by increasing ID; afterwards none is ready, and a second drain
/// forwards nothing.
pub proof fn law_immediate_drain_is_exact(
    states: Seq<ReassemblyBuffer>,
    calls: Seq<BufferCall>,
    k: nat,
    now_ns: u64,
    after: ReassemblyBuffer,
    later_ns: u64,
)
    requires
        states.len() > 0,
        states[0].config.immediate_forward,
        states[0].slot_map() == Map::<u64, SlotView>::empty(),
        buffer_run(states, calls),
        k <= calls.len(),
        states[k as int].steps_to(BufferCall::DrainReady { now_ns }, after),
    ensures
        states[k as int].drained(now_ns) == listing(stored_since(calls, k).dom()).map_values(
            |id: u64| stored_since(calls, k)[id],
        ),
        increasing(listing(stored_since(calls, k).dom())),
        listing(stored_since(calls, k).dom()).to_set() == stored_since(calls, k).dom(),
        after.chunks_forwarded == states[k as int].chunks_forwarded + stored_since(calls, k).dom().len(),
        after.ready_slots().len() == 0,
        after.drained(later_ns).len() == 0,
{
    let b = states[k as int];
    let chunks = stored_since(calls, k);
    lemma_run_holds(states, calls, k);
    lemma_ready_are_held(b, chunks);
    let ids = b.ready_slots();
    let keep = |id: u64| b.slot_map()[id].ready();
    assert(b.drained_ids(now_ns) == ids);
    assert forall|i: int| 0 <= i < ids.len() implies keep(#[trigger] ids[i]) && chunks.dom().contains(ids[i]) by {
        assert(ids.to_set().contains(ids[i]));
    }
    lemma_filter_all(ids, keep);
    assert(b.drained(now_ns) =~= ids.map_values(|id: u64| chunks[id]));
    ids.unique_seq_to_set();
    let run = calls.take(k as int).push(BufferCall::DrainReady { now_ns });
    let passed = states.take((k + 1) as int).push(after);
    assert forall|j: int| #![trigger run[j]] 0 <= j < run.len() implies passed[j].steps_to(run[j], passed[j + 1]) by {
        if j < k {
            assert(calls[j] == run[j]);
        }
    }
    lemma_run_holds(passed, run, k + 1);
    lemma_ready_are_held(after, Map::empty());
    assert(after.ready_slots().to_set() == Set::<u64>::empty());
    if after.ready_slots().len() > 0 {
        assert(after.ready_slots().to_set().contains(after.ready_slots()[0]));
    }
    reveal(Seq::filter);
    assert(after.drained_ids(later_ns) == after.ready_slots());
}

proof fn lemma_filter_all(s: Seq<u64>, keep: spec_fn(u64) -> bool)
    requires
        forall|i: int| 0 <= i < s.len() ==> keep(#[trigger] s[i]),
    ensures
        s.filter(keep) == s,
    decreases s.len(),
{
    reveal(Seq::filter);
    if s.len() > 0 {
        lemma_filter_all(s.drop_last(), keep);
        assert(s.drop_last().push(s.last()) =~= s);
    } else {
        assert(s.filter(keep) =~= s);
    }
}

/// A drained chunk leaves the buffer: no later drain forwards it again.
pub proof fn law_drained_chunks_are_gone(b: ReassemblyBuffer, now_ns: u64, i: int)
    requires
        0 <= i < b.drained_ids(now_ns).len(),
    ensures
        !b.kept(now_ns).dom().contains(b.drained_ids(now_ns)[i]),
{
    assert(b.drained_ids(now_ns).to_set().contains(b.drained_ids(now_ns)[i]));
}

/// After a drain the buffer holds no more slots than configured.
pub proof fn law_buffer_is_bounded(b: ReassemblyBuffer, now_ns: u64)
    ensures
        b.kept(now_ns).dom().len() <= b.config.max_buffer_chunks,
{
    assert(b.slot_map().dom() =~= b.slots@.dom());
    let left = b.undrained(now_ns);
    let drained = b.drained_ids(now_ns);
    assert(left.dom() =~= b.slot_map().dom().difference(drained.to_set()));
    lemma_listing_exists(left.dom());
    let ids = listing(left.dom());
    let capacity = b.config.max_buffer_chunks as nat;
    let surplus = ids.take(monus(left.dom().len(), capacity) as int);
    assert forall|i: int| 0 <= i < surplus.len() implies left.dom().contains(#[trigger] surplus[i]) by {
        assert(ids.to_set().contains(ids[i]));
    }
    lemma_left(left, surplus);
    let fit = trimmed(left, capacity);
    assert(fit.dom() =~= left.dom().difference(surplus.to_set()));
    assert(b.kept(now_ns).dom().subset_of(fit.dom()));
    vstd::set_lib::lemma_len_subset(b.kept(now_ns).dom(), fit.dom());
}

/// In order, nothing passes a gap before its timeout: while the first slot is
/// ahead of the chunk expected and not late, a drain forwards nothing and
/// keeps expecting that chunk.
pub proof fn law_gap_is_waited_for(b: ReassemblyBuffer, now_ns: u64)
    requires
        !b.config.immediate_forward,
        listing(b.slot_map().dom()).len() > 0,
        listing(b.slot_map().dom())[0] > b.next_expected,
        !b.slot_map()[listing(b.slot_map().dom())[0]].late(b.config.reorder_timeout_ms * 1_000_000, now_ns),
    ensures
        b.drained(now_ns).len() == 0,
        b.next_after(now_ns) == b.next_expected,
{
    reveal(Seq::filter);
    assert(b.drained_ids(now_ns) =~= Seq::<u64>::empty());
}

/// In order, a run of chunks that begins with the one expected goes out at
/// once, and none is given up on.
pub proof fn law_run_goes_out_at_once(
    slots: Map<u64, SlotView>,
    ids: Seq<u64>,
    next: nat,
    timeout_ns: int,
    now_ns: u64,
)
    requires
        forall|i: int| 0 <= i < ids.len() ==> (#[trigger] ids[i]) == next + i && slots[ids[i]].ready(),
    ensures
        walk(slots, ids, next, timeout_ns, now_ns) == (Walk { taken: ids.len(), next: next + ids.len(), skipped: 0 }),
    decreases ids.len(),
{
    if ids.len() > 0 {
        let rest = ids.drop_first();
        assert(ids[0] == next);
        assert forall|i: int| 0 <= i < rest.len() implies (#[trigger] rest[i]) == next + 1 + i && slots[rest[i]].ready() by {
            assert(rest[i] == ids[i + 1]);
        }
        law_run_goes_out_at_once(slots, rest, next + 1, timeout_ns, now_ns);
    }
}

/// Nothing blocks longer than the timeout: once every slot is late, a drain
/// takes them all, whatever is missing.
pub proof fn law_late_slots_do_not_block(
    slots: Map<u64, SlotView>,
    ids: Seq<u64>,
    next: nat,
    timeout_ns: int,
    now_ns: u64,
)
    requires
        forall|i: int| 0 <= i < ids.len() ==> slots[#[trigger] ids[i]].late(timeout_ns, now_ns),
    ensures
        walk(slots, ids, next, timeout_ns, now_ns).taken == ids.len(),
    decreases ids.len(),
{
    if ids.len() > 0 {
        let rest = ids.drop_first();
        assert(slots[ids[0]].late(timeout_ns, now_ns));
        assert forall|i: int| 0 <= i < rest.len() implies slots[#[trigger] rest[i]].late(timeout_ns, now_ns) by {
            assert(rest[i] == ids[i + 1]);
        }
        law_late_slots_do_not_block(slots, rest, ids[0] as nat + 1, timeout_ns, now_ns);
    }
}

// ---------------------------------------------------------------------------
// What an in-order drain does, slot by slot
// ---------------------------------------------------------------------------

/// The chunk expected when a drain comes to the slot at position `k`.
pub open spec fn expected_at(next: nat, ids: Seq<u64>, k: int) -> nat {
    if k <= 0 {
        next
    } else {
        (ids[k - 1] + 1) as nat
    }
}

/// Where a walk stops, and what it leaves expected.
proof fn lemma_walk(slots: Map<u64, SlotView>, ids: Seq<u64>, next: nat, timeout_ns: int, now_ns: u64)
    ensures
        ({
            let w = walk(slots, ids, next, timeout_ns, now_ns);
            let n = w.taken as int;
            &&& n <= ids.len()
            &&& w.next == expected_at(next, ids, n)
            &&& forall|k: int|
                0 <= k < n ==> #[trigger] slots[ids[k]].late(timeout_ns, now_ns) || (slots[ids[k]].ready() && ids[k]
                    <= expected_at(next, ids, k))
            &&& n < ids.len() ==> !slots[ids[n]].late(timeout_ns, now_ns) && (!slots[ids[n]].ready() || ids[n]
                > expected_at(next, ids, n))
        }),
    decreases ids.len(),
{
    if ids.len() > 0 {
        let rest = ids.drop_first();
        let after = ids[0] as nat + 1;
        lemma_walk(slots, rest, after, timeout_ns, now_ns);
        let w = walk(slots, ids, next, timeout_ns, now_ns);
        let v = walk(slots, rest, after, timeout_ns, now_ns);
        if w.taken > 0 {
            let n = w.taken as int;
            assert(v.taken == n - 1);
            assert(forall|k: int| 0 <= k < rest.len() ==> rest[k] == ids[k + 1]);
            assert forall|k: int| 0 <= k < rest.len() + 1 implies #[trigger] expected_at(after, rest, k) == expected_at(
                next,
                ids,
                k + 1,
            ) by {
                if k > 0 {
                    assert(rest[k - 1] == ids[k]);
                }
            }
            assert(expected_at(after, rest, n - 1) == expected_at(next, ids, n));
            assert forall|k: int| 0 <= k < n implies #[trigger] slots[ids[k]].late(timeout_ns, now_ns) || (
            slots[ids[k]].ready() && ids[k] <= expected_at(next, ids, k)) by {
                if k > 0 {
                    assert(rest[k - 1] == ids[k]);
                    assert(slots[rest[k - 1]].late(timeout_ns, now_ns) || (slots[rest[k - 1]].ready() && rest[k - 1]
                        <= expected_at(after, rest, k - 1)));
                    assert(expected_at(after, rest, k - 1) == expected_at(next, ids, k));
                }
            }
            if n < ids.len() {
                assert(rest[n - 1] == ids[n]);
            }
        }
    }
}

/// An in-order drain takes slots by increasing ID.  It takes a slot that is
/// older than the timeout, and one that holds a chunk where no chunk before it
/// is missing; it stops at the first other one.  The chunk expected next is
/// one past the last slot taken, so nothing before that is waited for again.
pub proof fn law_in_order_drain(b: ReassemblyBuffer, now_ns: u64)
    requires
        !b.config.immediate_forward,
    ensures
        ({
            let ids = listing(b.slot_map().dom());
            let n = b.drained_ids(now_ns).len() as int;
            let timeout = b.config.reorder_timeout_ms * 1_000_000;
            &&& increasing(ids)
            &&& ids.to_set() == b.slot_map().dom()
            &&& n <= ids.len()
            &&& forall|k: int| 0 <= k < n ==> #[trigger] b.drained_ids(now_ns)[k] == ids[k]
            &&& b.next_after(now_ns) == if n > 0 {
                ids[n - 1] + 1
            } else {
                b.next_expected as int
            }
            &&& forall|k: int|
                #![trigger ids[k]]
                0 <= k < n ==> now_ns - b.slot_map()[ids[k]].created_at > timeout || (b.slot_map()[ids[k]].chunk is Some
                    && !b.slot_map()[ids[k]].forwarded && ids[k] <= (if k > 0 {
                    ids[k - 1] + 1
                } else {
                    b.next_expected as int
                }))
            &&& n < ids.len() ==> now_ns - b.slot_map()[ids[n]].created_at <= timeout && (b.slot_map()[ids[n]].chunk is None
                || b.slot_map()[ids[n]].forwarded || ids[n] > b.next_after(now_ns))
        }),
{
    assert(b.slot_map().dom() =~= b.slots@.dom());
    lemma_listing_exists(b.slot_map().dom());
    let ids = listing(b.slot_map().dom());
    let timeout = b.config.reorder_timeout_ms * 1_000_000;
    lemma_walk(b.slot_map(), ids, b.next_expected as nat, timeout, now_ns);
    let n = b.drained_ids(now_ns).len() as int;
    assert(n == b.walk_at(now_ns).taken);
    assert forall|k: int| #![trigger ids[k]] 0 <= k < n implies now_ns - b.slot_map()[ids[k]].created_at > timeout || (
    b.slot_map()[ids[k]].chunk is Some && !b.slot_map()[ids[k]].forwarded && ids[k] <= (if k > 0 {
        ids[k - 1] + 1
    } else {
        b.next_expected as int
    })) by {
        assert(b.slot_map()[ids[k]].late(timeout, now_ns) || (b.slot_map()[ids[k]].ready() && ids[k] <= expected_at(
            b.next_expected as nat,
            ids,
            k,
        )));
    }
}

proof fn lemma_walk_accounts(slots: Map<u64, SlotView>, ids: Seq<u64>, next: nat, timeout_ns: int, now_ns: u64)
    requires
        increasing(ids),
        ids.len() > 0 ==> ids[0] >= next,
    ensures
        ({
            let w = walk(slots, ids, next, timeout_ns, now_ns);
            w.next == next + w.skipped + ids.take(w.taken as int).filter(|id: u64| slots[id].ready()).len()
        }),
    decreases ids.len(),
{
    let keep = |id: u64| slots[id].ready();
    let w = walk(slots, ids, next, timeout_ns, now_ns);
    if w.taken == 0 {
        lemma_filter_start(ids, keep);
    } else {
        let rest = ids.drop_first();
        let after = ids[0] as nat + 1;
        assert(increasing(rest)) by {
            assert forall|i: int, j: int| 0 <= i < j < rest.len() implies rest[i] < rest[j] by {
                assert(ids[i + 1] < ids[j + 1]);
            }
        }
        if rest.len() > 0 {
            assert(ids[0] < ids[1]);
        }
        lemma_walk_in_range(slots, rest, after, timeout_ns, now_ns);
        lemma_walk_accounts(slots, rest, after, timeout_ns, now_ns);
        let v = walk(slots, rest, after, timeout_ns, now_ns);
        let taken = ids.take(w.taken as int);
        assert(taken =~= seq![ids[0]] + rest.take(v.taken as int));
        lemma_filter_split(ids[0], rest.take(v.taken as int), keep);
    }
}

proof fn lemma_filter_split(first: u64, rest: Seq<u64>, keep: spec_fn(u64) -> bool)
    ensures
        (seq![first] + rest).filter(keep).len() == rest.filter(keep).len() + if keep(first) {
            1int
        } else {
            0
        },
    decreases rest.len(),
{
    reveal(Seq::filter);
    let all = seq![first] + rest;
    if rest.len() == 0 {
        assert(all.drop_last() =~= Seq::<u64>::empty());
        assert(rest =~= Seq::<u64>::empty());
        assert(all.drop_last().filter(keep).len() == 0);
    } else {
        lemma_filter_split(first, rest.drop_last(), keep);
        assert(all.drop_last() =~= seq![first] + rest.drop_last());
        assert(all.last() == rest.last());
    }
}

/// In order, every chunk from the one expected before a drain up to the one
/// expected after it was either forwarded or given up on.  (Besides, slots
/// beyond the capacity are given up on.)
pub proof fn law_forwarded_or_given_up(b: ReassemblyBuffer, now_ns: u64)
    requires
        !b.config.immediate_forward,
        forall|id: u64| #[trigger] b.slot_map().dom().contains(id) ==> id >= b.next_expected,
    ensures
        ({
            let left = b.slot_map().dom().len() - b.drained_ids(now_ns).len();
            let surplus = if left > b.config.max_buffer_chunks {
                left - b.config.max_buffer_chunks
            } else {
                0
            };
            b.next_after(now_ns) - b.next_expected == b.drained(now_ns).len() + (b.timeouts_after(now_ns)
                - b.chunks_timeout - surplus)
        }),
{
    assert(b.slot_map().dom() =~= b.slots@.dom());
    lemma_listing_exists(b.slot_map().dom());
    let ids = listing(b.slot_map().dom());
    let timeout = b.config.reorder_timeout_ms * 1_000_000;
    if ids.len() > 0 {
        assert(ids.to_set().contains(ids[0]));
    }
    lemma_walk_accounts(b.slot_map(), ids, b.next_expected as nat, timeout, now_ns);
    lemma_walk_in_range(b.slot_map(), ids, b.next_expected as nat, timeout, now_ns);
    lemma_drained_ids(b, now_ns);
    lemma_left(b.slot_map(), b.drained_ids(now_ns));
    assert(b.undrained(now_ns).dom() =~= b.slot_map().dom().difference(b.drained_ids(now_ns).to_set()));
}

/// The chunk expected goes out at once, however young it is, if no older slot
/// stands before it: no matter what was missing before, a chunk that follows
/// the last one forwarded does not wait.
pub proof fn law_expected_chunk_does_not_wait(b: ReassemblyBuffer, now_ns: u64)
    requires
        b.slot_map().dom().contains(b.next_expected),
        b.slot_map()[b.next_expected].chunk is Some,
        !b.slot_map()[b.next_expected].forwarded,
        forall|id: u64| #[trigger] b.slot_map().dom().contains(id) ==> id >= b.next_expected,
    ensures
        b.drained(now_ns).len() > 0,
        b.drained(now_ns)[0] == b.slot_map()[b.next_expected].chunk->0,
        !b.kept(now_ns).dom().contains(b.next_expected),
{
    assert(b.slot_map().dom() =~= b.slots@.dom());
    lemma_listing_exists(b.slot_map().dom());
    let ids = listing(b.slot_map().dom());
    let keep = |id: u64| b.slot_map()[id].ready();
    assert(ids.to_set().contains(b.next_expected));
    let p = choose|p: int| 0 <= p < ids.len() && ids[p] == b.next_expected;
    assert(ids.to_set().contains(ids[0]));
    if p > 0 {
        assert(ids[0] < ids[p]);
    }
    assert(ids[0] == b.next_expected);
    let drained = b.drained_ids(now_ns);
    if b.config.immediate_forward {
        lemma_first_kept(ids, keep);
        lemma_filter_all_ready(b.slot_map(), ids, keep);
    } else {
        lemma_walk_in_range(
            b.slot_map(),
            ids,
            b.next_expected as nat,
            b.config.reorder_timeout_ms * 1_000_000,
            now_ns,
        );
        lemma_walk_in_range(
            b.slot_map(),
            ids.drop_first(),
            b.next_expected as nat + 1,
            b.config.reorder_timeout_ms * 1_000_000,
            now_ns,
        );
        assert(b.walk_at(now_ns).taken > 0);
    }
    assert(drained.len() > 0 && drained[0] == b.next_expected);
    lemma_first_kept(drained, keep);
    assert(drained.to_set().contains(drained[0]));
}

proof fn lemma_filter_all_ready(slots: Map<u64, SlotView>, ids: Seq<u64>, keep: spec_fn(u64) -> bool)
    requires
        keep == (|id: u64| slots[id].ready()),
        ids.len() > 0,
        keep(ids[0]),
    ensures
        ids.filter(|id: u64| slots[id].ready()).len() > 0,
{
    lemma_first_kept(ids, keep);
}

proof fn lemma_first_kept(s: Seq<u64>, keep: spec_fn(u64) -> bool)
    requires
        s.len() > 0,
        keep(s[0]),
    ensures
        s.filter(keep).len() > 0,
        s.filter(keep)[0] == s[0],
    decreases s.len(),
{
    reveal(Seq::filter);
    if s.len() > 1 {
        lemma_first_kept(s.drop_last(), keep);
    } else {
        assert(s.drop_last() =~= Seq::<u64>::empty());
        assert(s.drop_last().filter(keep).len() == 0);
    }
}

/// What a drain leaves in the buffer stays as it was; nothing older than ten
/// timeouts stays.  A younger slot that was not taken stays too, unless there
/// are more than the buffer holds; then the first ones go, by ID.
pub proof fn law_drain_keeps_the_rest(b: ReassemblyBuffer, now_ns: u64, id: u64)
    requires
        b.slot_map().dom().contains(id),
        !b.drained_ids(now_ns).contains(id),
    ensures
        b.kept(now_ns).dom().contains(id) ==> b.kept(now_ns)[id] == b.slot_map()[id] && now_ns - b.slot_map()[id].created_at
            <= b.config.reorder_timeout_ms * 10_000_000,
        now_ns - b.slot_map()[id].created_at <= b.config.reorder_timeout_ms * 10_000_000 && b.slot_map().dom().len()
            - b.drained_ids(now_ns).len() <= b.config.max_buffer_chunks ==> b.kept(now_ns).dom().contains(id),
        now_ns - b.slot_map()[id].created_at <= b.config.reorder_timeout_ms * 10_000_000 && !b.kept(
            now_ns,
        ).dom().contains(id) ==> forall|other: u64| #[trigger] b.kept(now_ns).dom().contains(other) ==> id < other,
{
    assert(b.slot_map().dom() =~= b.slots@.dom());
    lemma_drained_ids(b, now_ns);
    lemma_left(b.slot_map(), b.drained_ids(now_ns));
    let left = b.undrained(now_ns);
    assert(left.dom() =~= b.slot_map().dom().difference(b.drained_ids(now_ns).to_set()));
    lemma_listing_exists(left.dom());
    let ids = listing(left.dom());
    let count = monus(left.dom().len(), b.config.max_buffer_chunks as nat) as int;
    let surplus = ids.take(count);
    let fit = trimmed(left, b.config.max_buffer_chunks as nat);
    assert(b.drained_ids(now_ns).to_set().contains(id) == b.drained_ids(now_ns).contains(id));
    assert(left.dom().contains(id) && left[id] == b.slot_map()[id]);
    assert(fit.dom() =~= left.dom().difference(surplus.to_set()));
    if count == 0 {
        assert(surplus =~= Seq::<u64>::empty());
        assert(!surplus.to_set().contains(id));
        assert(fit.dom().contains(id));
    }
    if surplus.contains(id) {
        let p = choose|p: int| 0 <= p < surplus.len() && surplus[p] == id;
        assert forall|other: u64| #[trigger] b.kept(now_ns).dom().contains(other) implies id < other by {
            assert(fit.dom().contains(other));
            assert(ids.to_set().contains(other));
            let r = choose|r: int| 0 <= r < ids.len() && ids[r] == other;
            if r < count {
                assert(surplus[r] == other);
                assert(surplus.to_set().contains(other));
            }
            assert(ids[p] < ids[r]);
        }
    } else {
        assert(!surplus.to_set().contains(id));
        assert(fit.dom().contains(id) && fit[id] == b.slot_map()[id]);
    }
}

/// In immediate mode a drain gives up on nothing but what exceeds the
/// capacity, and expects what it expected before.
pub proof fn law_immediate_drain_gives_up_on_nothing(b: ReassemblyBuffer, now_ns: u64)
    requires
        b.config.immediate_forward,
    ensures
        b.next_after(now_ns) == b.next_expected,
        b.slot_map().dom().len() - b.drained_ids(now_ns).len() <= b.config.max_buffer_chunks ==> b.timeouts_after(now_ns)
            == b.chunks_timeout,
        b.timeouts_after(now_ns) >= b.chunks_timeout,
{
    assert(b.slot_map().dom() =~= b.slots@.dom());
    lemma_drained_ids(b, now_ns);
    lemma_left(b.slot_map(), b.drained_ids(now_ns));
    assert(b.undrained(now_ns).dom() =~= b.slot_map().dom().difference(b.drained_ids(now_ns).to_set()));
}

/// A slot's age counts from the first word of its chunk, be that the
/// announcement or the chunk itself; a new one holds nothing.
pub proof fn law_age_counts_from_the_first_word(b: ReassemblyBuffer, id: u64, now_ns: u64)
    ensures
        b.slot_map().dom().contains(id) ==> b.slot_at(id, now_ns) == b.slot_map()[id],
        !b.slot_map().dom().contains(id) ==> b.slot_at(id, now_ns).created_at == now_ns && b.slot_at(id, now_ns).chunk
            is None && !b.slot_at(id, now_ns).forwarded && b.slot_at(id, now_ns).announcement is None,
        b.highest_with(id) >= id,
        b.highest_with(id) >= b.highest_seen,
        b.highest_with(id) == id || b.highest_with(id) == b.highest_seen,
{
    assert(b.slot_map().dom() =~= b.slots@.dom());
}

/// A drain gives out the chunk of every slot that it takes.
pub proof fn law_taken_chunks_go_out(b: ReassemblyBuffer, now_ns: u64, id: u64)
    requires
        b.drained_ids(now_ns).contains(id),
        b.slot_map()[id].chunk is Some,
        !b.slot_map()[id].forwarded,
    ensures
        b.drained(now_ns).contains(b.slot_map()[id].chunk->0),
{
    let ids = b.drained_ids(now_ns);
    let keep = |id: u64| b.slot_map()[id].ready();
    let sent = ids.filter(keep);
    let q = choose|q: int| 0 <= q < ids.len() && ids[q] == id;
    ids.lemma_filter_contains(keep, q);
    let r = choose|r: int| 0 <= r < sent.len() && sent[r] == id;
    assert(b.drained(now_ns)[r] == b.slot_map()[id].chunk->0);
}

/// A drain gives out nothing but chunks of slots that it takes.
pub proof fn law_nothing_else_goes_out(b: ReassemblyBuffer, now_ns: u64, k: int)
    requires
        0 <= k < b.drained(now_ns).len(),
    ensures
        exists|id: u64| #[trigger]
            b.drained_ids(now_ns).contains(id) && b.slot_map()[id].chunk == Some(b.drained(now_ns)[k]),
{
    let ids = b.drained_ids(now_ns);
    let keep = |id: u64| b.slot_map()[id].ready();
    let sent = ids.filter(keep);
    ids.lemma_filter_pred(keep, k);
    assert(sent.contains(sent[k]));
    ids.lemma_filter_contains_rev(keep, sent[k]);
    assert(b.slot_map()[sent[k]].chunk == Some(b.drained(now_ns)[k]));
}

/// Of the slots that a drain leaves, as many stay as the buffer holds, if none
/// of them is older than ten timeouts.
pub proof fn law_buffer_keeps_what_it_can_hold(b: ReassemblyBuffer, now_ns: u64)
    requires
        forall|id: u64| #[trigger]
            b.slot_map().dom().contains(id) ==> now_ns - b.slot_map()[id].created_at <= b.config.reorder_timeout_ms
                * 10_000_000,
    ensures
        ({
            let left = b.slot_map().dom().len() - b.drained_ids(now_ns).len();
            let capacity = b.config.max_buffer_chunks as int;
            b.kept(now_ns).dom().len() == if left <= capacity {
                left
            } else {
                capacity
            }
        }),
{
    assert(b.slot_map().dom() =~= b.slots@.dom());
    lemma_drained_ids(b, now_ns);
    lemma_left(b.slot_map(), b.drained_ids(now_ns));
    let left = b.undrained(now_ns);
    assert(left.dom() =~= b.slot_map().dom().difference(b.drained_ids(now_ns).to_set()));
    lemma_listing_exists(left.dom());
    let ids = listing(left.dom());
    let capacity = b.config.max_buffer_chunks as nat;
    let surplus = ids.take(monus(left.dom().len(), capacity) as int);
    assert forall|i: int| 0 <= i < surplus.len() implies left.dom().contains(#[trigger] surplus[i]) by {
        assert(ids.to_set().contains(ids[i]));
    }
    lemma_left(left, surplus);
    let fit = trimmed(left, capacity);
    assert(fit.dom() =~= left.dom().difference(surplus.to_set()));
    assert forall|id: u64| #[trigger] fit.dom().contains(id) implies !fit[id].late(
        b.config.reorder_timeout_ms * 10 * 1_000_000,
        now_ns,
    ) by {
        assert(b.slot_map().dom().contains(id));
        assert(fit[id] == b.slot_map()[id]);
    }
    assert(b.kept(now_ns).dom() =~= fit.dom());
    ids.unique_seq_to_set();
}

/// A buffer of ordinary size can always be drained: IDs and counts far from
/// overflow, and nothing from before the chunk expected.
pub proof fn law_ordinary_buffer_can_drain(b: ReassemblyBuffer, now_ns: u64)
    requires
        forall|id: u64| #[trigger]
            b.slot_map().dom().contains(id) ==> b.next_expected <= id < 0x4000_0000_0000_0000,
        b.slot_map().dom().len() < 0x4000_0000_0000_0000,
        b.next_expected < 0x4000_0000_0000_0000,
        b.chunks_timeout < 0x4000_0000_0000_0000,
        b.chunks_forwarded < 0x4000_0000_0000_0000,
        b.config.reorder_timeout_ms * 10 <= u64::MAX,
    ensures
        b.can_drain_at(now_ns),
{
    assert(b.slot_map().dom() =~= b.slots@.dom());
    lemma_drained_ids(b, now_ns);
    lemma_left(b.slot_map(), b.drained_ids(now_ns));
    assert(b.undrained(now_ns).dom() =~= b.slot_map().dom().difference(b.drained_ids(now_ns).to_set()));
    b.drained_ids(now_ns).lemma_filter_len(|id: u64| b.slot_map()[id].ready());
    if !b.config.immediate_forward {
        law_in_order_drain(b, now_ns);
        law_forwarded_or_given_up(b, now_ns);
        let ids = listing(b.slot_map().dom());
        let n = b.drained_ids(now_ns).len() as int;
        if n > 0 {
            assert(ids.to_set().contains(ids[n - 1]));
        }
    }
}

} // verus!
