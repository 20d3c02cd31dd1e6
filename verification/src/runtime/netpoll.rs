//! The network poller's bookkeeping: the slab of registered poll
//! descriptors, the per-descriptor parker state machines, the event
//! cookies epoll echoes back, and the queue of read/write deadlines.
//! The caller owns the epoll and eventfd descriptors, makes the system
//! calls, parks and readies goroutines, and holds the `Netpoll` behind
//! a lock; the functions here decide what each step does.
use vstd::prelude::*;
use vstd::wrapping::{u32_specs, u64_specs, usize_specs};

verus! {

/// No waiter and no pending notification.
pub const PD_NIL: usize = 0;
/// The descriptor is ready: the next block returns at once.
pub const PD_READY: usize = 1;
/// A goroutine is preparing to park. Values above it are parked
/// goroutines.
pub const PD_WAIT: usize = 2;
/// The read mode (`b'r'`); any other mode byte means write.
pub const MODE_READ: u8 = 0x72;

/// `EPOLLIN`.
pub const EPOLLIN: u32 = 0x1;
/// `EPOLLOUT`.
pub const EPOLLOUT: u32 = 0x4;
/// `EPOLLERR`.
pub const EPOLLERR: u32 = 0x8;
/// `EPOLLHUP`.
pub const EPOLLHUP: u32 = 0x10;
/// `EPOLLRDHUP`.
pub const EPOLLRDHUP: u32 = 0x2000;

/// Per-descriptor parker state.
#[derive(Clone, Copy, PartialEq, Eq, Debug)]
pub struct PollDesc {
    /// The kernel descriptor.
    pub fd: i32,
    /// Its index in the slab.
    pub slot: u32,
    /// Read-side parker state: `PD_NIL`, `PD_READY`, `PD_WAIT` or a
    /// parked goroutine.
    pub rg: usize,
    /// Write-side parker state.
    pub wg: usize,
    /// Read deadline in monotonic nanoseconds: 0 none, -1 expired.
    pub rd: i64,
    /// Write deadline.
    pub wd: i64,
    /// Read-deadline generation.
    pub rseq: u32,
    /// Write-deadline generation.
    pub wseq: u32,
    /// Registration generation; its low 16 bits ride in the event
    /// cookie so that stale events are dropped.
    pub fdseq: u32,
    /// Which registration this is, unique over the poller's life:
    /// pending deadlines name it, so they never reach a successor in
    /// the same slot.
    pub id: u64,
}

/// How a `block` ended.
#[derive(Clone, Copy, PartialEq, Eq, Debug)]
pub enum BlockResult {
    /// The descriptor is ready; do the I/O.
    Ready,
    /// The deadline expired.
    Timedout,
    /// Woken without readiness or deadline; retry.
    Aborted,
}

/// The first step of `block`.
#[derive(Clone, Copy, PartialEq, Eq, Debug)]
pub enum BlockStart {
    /// The deadline has already expired: return `Timedout`.
    Timedout,
    /// A readiness notification was consumed: return `Ready`.
    Ready,
    /// The slot now waits: park, then finish.
    Park,
}

/// One epoll event as the kernel reports it.
#[derive(Clone, Copy, PartialEq, Eq, Debug)]
pub struct EpollEvent {
    pub events: u32,
    pub data: u64,
}

/// One pending deadline.
#[derive(Clone, Copy, PartialEq, Eq, Debug)]
pub struct DeadlineEntry {
    pub deadline_ns: i64,
    pub slot: u32,
    pub id: u64,
    pub mode: u8,
    pub seq: u32,
}

/// The parker state of `mode`.
pub open spec fn gslot(pd: PollDesc, mode: u8) -> usize {
    if mode == MODE_READ {
        pd.rg
    } else {
        pd.wg
    }
}

/// `pd` with the parker state of `mode` set to `v`.
pub open spec fn set_gslot(pd: PollDesc, mode: u8, v: usize) -> PollDesc {
    if mode == MODE_READ {
        PollDesc { rg: v, ..pd }
    } else {
        PollDesc { wg: v, ..pd }
    }
}

/// The deadline of `mode`.
pub open spec fn dl_of(pd: PollDesc, mode: u8) -> i64 {
    if mode == MODE_READ {
        pd.rd
    } else {
        pd.wd
    }
}

/// The deadline generation of `mode`.
pub open spec fn seq_of(pd: PollDesc, mode: u8) -> u32 {
    if mode == MODE_READ {
        pd.rseq
    } else {
        pd.wseq
    }
}

/// The event cookie of a registration: bit 48 set, the low 16 bits of
/// `fdseq` in bits 32..48, the slot in bits 0..32.
pub open spec fn event_data(slot: u32, fdseq: u32) -> int {
    0x1_0000_0000_0000 + (fdseq % 0x10000) * 0x1_0000_0000 + slot
}

/// Builds the event cookie.
pub fn pack_event_data(slot: u32, fdseq: u32) -> (d: u64)
    ensures
        d == event_data(slot, fdseq),
{
    0x1_0000_0000_0000u64 + (fdseq as u64 % 0x10000) * 0x1_0000_0000 + slot as u64
}

/// The slot a cookie names.
pub fn unpack_slot(data: u64) -> (s: u32)
    ensures
        s == data % 0x1_0000_0000,
{
    (data % 0x1_0000_0000) as u32
}

/// The generation tag a cookie carries.
pub fn unpack_tag(data: u64) -> (t: u32)
    ensures
        t == (data / 0x1_0000_0000) % 0x10000,
{
    ((data / 0x1_0000_0000) % 0x10000) as u32
}

/// A cookie gives back the slot and the low 16 bits of the generation
/// it was built from.
pub proof fn lemma_event_data_round_trip(slot: u32, fdseq: u32)
    ensures
        event_data(slot, fdseq) % 0x1_0000_0000 == slot,
        (event_data(slot, fdseq) / 0x1_0000_0000) % 0x10000 == fdseq % 0x10000,
{
    let q: int = (fdseq % 0x10000) as int;
    assert(event_data(slot, fdseq) == (0x10000 + q) * 0x1_0000_0000 + slot);
    vstd::arithmetic::div_mod::lemma_fundamental_div_mod_converse(
        event_data(slot, fdseq),
        0x1_0000_0000,
        0x10000 + q,
        slot as int,
    );
    vstd::arithmetic::div_mod::lemma_fundamental_div_mod_converse(0x10000 + q, 0x10000, 1, q);
}

/// A fresh descriptor for `fd`: nobody waits, no deadline, generation 1.
pub open spec fn fresh_desc(fd: i32, id: u64) -> PollDesc {
    PollDesc {
        fd,
        slot: u32::MAX,
        rg: PD_NIL,
        wg: PD_NIL,
        rd: 0,
        wd: 0,
        rseq: 0,
        wseq: 0,
        fdseq: 1,
        id,
    }
}

/// What `unblock` does to a parker state: the new state and the
/// goroutine it wakes, if any.
pub open spec fn unblock_spec(old: usize, ioready: bool) -> (usize, Option<usize>) {
    if old == PD_READY || (old == PD_NIL && !ioready) {
        (old, None)
    } else {
        (
            if ioready {
                PD_READY
            } else {
                PD_NIL
            },
            if old == PD_NIL || old == PD_WAIT {
                None
            } else {
                Some(old)
            },
        )
    }
}

/// Moves the parker of `mode` to ready (`ioready`) or clears it, and
/// returns the goroutine that was parked there, if any.
pub fn unblock(pd: &mut PollDesc, mode: u8, ioready: bool) -> (g: Option<usize>)
    ensures
        *final(pd) == set_gslot(*old(pd), mode, unblock_spec(gslot(*old(pd), mode), ioready).0),
        g == unblock_spec(gslot(*old(pd), mode), ioready).1,
{
    let old_v = if mode == MODE_READ {
        pd.rg
    } else {
        pd.wg
    };
    if old_v == PD_READY {
        return None;
    }
    if old_v == PD_NIL && !ioready {
        return None;
    }
    let new_v = if ioready {
        PD_READY
    } else {
        PD_NIL
    };
    if mode == MODE_READ {
        pd.rg = new_v;
    } else {
        pd.wg = new_v;
    }
    if old_v == PD_NIL || old_v == PD_WAIT {
        None
    } else {
        Some(old_v)
    }
}

/// The poller's state.
pub struct Netpoll {
    slots: Vec<Option<PollDesc>>,
    free: Vec<u32>,
    live: usize,
    total_opens: usize,
    recycled: usize,
    next_id: u64,
    deadlines: Vec<DeadlineEntry>,
}

/// What the poller holds.
pub struct NetpollView {
    /// The slab: a descriptor per registered slot, `None` when free.
    pub slots: Seq<Option<PollDesc>>,
    /// Free slot indices, the next one to reuse last.
    pub free: Seq<u32>,
    /// Registered descriptors.
    pub live: nat,
    /// Successful registrations so far (wrapping).
    pub total_opens: nat,
    /// Registrations that reused a freed slot (wrapping).
    pub recycled: nat,
    /// The id the next descriptor gets.
    pub next_id: nat,
    /// Pending deadlines.
    pub deadlines: Seq<DeadlineEntry>,
}

impl View for Netpoll {
    type V = NetpollView;

    closed spec fn view(&self) -> NetpollView {
        NetpollView {
            slots: self.slots@,
            free: self.free@,
            live: self.live as nat,
            total_opens: self.total_opens as nat,
            recycled: self.recycled as nat,
            next_id: self.next_id as nat,
            deadlines: self.deadlines@,
        }
    }
}

/// The free list names exactly the empty slots, each once.
pub open spec fn slab_ok(v: NetpollView) -> bool {
    &&& v.slots.len() <= u32::MAX
    &&& forall|k: int| 0 <= k < v.free.len() ==> (#[trigger] v.free[k]) < v.slots.len()
    &&& forall|k: int| 0 <= k < v.free.len() ==> v.slots[#[trigger] v.free[k] as int] is None
    &&& forall|i: int| 0 <= i < v.slots.len() && #[trigger] v.slots[i] is None ==> v.free.contains(i as u32)
    &&& forall|a: int, b: int| 0 <= a < b < v.free.len() ==> v.free[a] != v.free[b]
}

/// The descriptor registered in `slot`, if any.
pub open spec fn desc_at(v: NetpollView, slot: u32) -> Option<PollDesc> {
    slot_desc(v.slots, slot)
}

/// The descriptor in `slot` of the slab `slots`, if any.
pub open spec fn slot_desc(slots: Seq<Option<PollDesc>>, slot: u32) -> Option<PollDesc> {
    if slot < slots.len() {
        slots[slot as int]
    } else {
        None
    }
}

/// `pd` with the deadline of `mode` set to `v`.
pub open spec fn set_dl(pd: PollDesc, mode: u8, v: i64) -> PollDesc {
    if mode == MODE_READ {
        PollDesc { rd: v, ..pd }
    } else {
        PollDesc { wd: v, ..pd }
    }
}

/// `pd` with the deadline generation of `mode` moved on by one.
pub open spec fn bump_seq(pd: PollDesc, mode: u8) -> PollDesc {
    if mode == MODE_READ {
        PollDesc { rseq: u32_specs::wrapping_add(pd.rseq, 1), ..pd }
    } else {
        PollDesc { wseq: u32_specs::wrapping_add(pd.wseq, 1), ..pd }
    }
}

/// A goroutine to wake, as a list of zero or one.
pub open spec fn woken(g: Option<usize>) -> Seq<usize> {
    match g {
        Some(x) => seq![x],
        None => Seq::empty(),
    }
}

/// Readiness for reading: input, peer hang-up, hang-up or error.
pub open spec fn read_ready(bits: u32) -> bool {
    bits & (EPOLLIN | EPOLLRDHUP | EPOLLHUP | EPOLLERR) != 0
}

/// Readiness for writing: output, hang-up or error.
pub open spec fn write_ready(bits: u32) -> bool {
    bits & (EPOLLOUT | EPOLLHUP | EPOLLERR) != 0
}

/// What one epoll event does to the slab, and whom it wakes: events
/// with no bits and the eventfd's are skipped, and so are events for
/// an empty slot or with a stale generation tag.
pub open spec fn poll_event(slots: Seq<Option<PollDesc>>, ev: EpollEvent, evtag: u64) -> (Seq<Option<PollDesc>>, Seq<usize>) {
    let slot = (ev.data % 0x1_0000_0000) as u32;
    let tag = (ev.data / 0x1_0000_0000) % 0x10000;
    if ev.events == 0 || ev.data == evtag {
        (slots, Seq::empty())
    } else {
        match slot_desc(slots, slot) {
            None => (slots, Seq::empty()),
            Some(pd) => if tag != pd.fdseq % 0x10000 {
                (slots, Seq::empty())
            } else {
                let r = unblock_spec(pd.rg, true);
                let pd1 = if read_ready(ev.events) {
                    PollDesc { rg: r.0, ..pd }
                } else {
                    pd
                };
                let g1 = if read_ready(ev.events) {
                    r.1
                } else {
                    None
                };
                let w = unblock_spec(pd1.wg, true);
                let pd2 = if write_ready(ev.events) {
                    PollDesc { wg: w.0, ..pd1 }
                } else {
                    pd1
                };
                let g2 = if write_ready(ev.events) {
                    w.1
                } else {
                    None
                };
                (slots.update(slot as int, Some(pd2)), woken(g1) + woken(g2))
            },
        }
    }
}

/// The events taken in order.
pub open spec fn poll_all(slots: Seq<Option<PollDesc>>, evs: Seq<EpollEvent>, evtag: u64) -> (Seq<Option<PollDesc>>, Seq<usize>)
    decreases evs.len(),
{
    if evs.len() == 0 {
        (slots, Seq::empty())
    } else {
        let a = poll_all(slots, evs.drop_last(), evtag);
        let b = poll_event(a.0, evs.last(), evtag);
        (b.0, a.1 + b.1)
    }
}

/// The index of the first entry with the earliest deadline.
pub open spec fn min_index(d: Seq<DeadlineEntry>) -> int
    decreases d.len(),
{
    if d.len() <= 1 {
        0
    } else {
        let j = min_index(d.drop_last());
        if d.last().deadline_ns < d[j].deadline_ns {
            d.len() - 1
        } else {
            j
        }
    }
}

/// The first earliest entry is an entry, none is earlier, and none
/// before it is as early.
pub proof fn lemma_min_index(d: Seq<DeadlineEntry>)
    requires
        d.len() > 0,
    ensures
        0 <= min_index(d) < d.len(),
        forall|k: int| 0 <= k < d.len() ==> d[min_index(d)].deadline_ns <= #[trigger] d[k].deadline_ns,
        forall|k: int| 0 <= k < min_index(d) ==> d[min_index(d)].deadline_ns < #[trigger] d[k].deadline_ns,
    decreases d.len(),
{
    if d.len() > 1 {
        let p = d.drop_last();
        lemma_min_index(p);
        let j = min_index(p);
        assert forall|k: int| 0 <= k < d.len() implies d[min_index(d)].deadline_ns <= #[trigger] d[k].deadline_ns by {
            if k < d.len() - 1 {
                assert(d[k] == p[k]);
                assert(p[j].deadline_ns <= p[k].deadline_ns);
            }
        }
        assert forall|k: int| 0 <= k < min_index(d) implies d[min_index(d)].deadline_ns < #[trigger] d[k].deadline_ns by {
            assert(d[k] == p[k]);
            if min_index(d) == j {
                assert(p[j].deadline_ns < p[k].deadline_ns);
            } else {
                assert(p[j].deadline_ns <= p[k].deadline_ns);
            }
        }
    }
}

/// What a due deadline does: when it still belongs to the descriptor
/// in its slot (same registration, same generation), the deadline is
/// marked expired and the parker cleared, waking whoever was parked.
pub open spec fn fire_entry(slots: Seq<Option<PollDesc>>, e: DeadlineEntry) -> (Seq<Option<PollDesc>>, Option<usize>) {
    match slot_desc(slots, e.slot) {
        Some(pd) => if pd.id == e.id && seq_of(pd, e.mode) == e.seq {
            let u = unblock_spec(gslot(pd, e.mode), false);
            (slots.update(e.slot as int, Some(set_gslot(set_dl(pd, e.mode, -1i64), e.mode, u.0))), u.1)
        } else {
            (slots, None)
        },
        None => (slots, None),
    }
}

/// Firing every deadline due at `now`, earliest first: the slab, the
/// deadlines left, and whom it wakes.
pub open spec fn fire_all(slots: Seq<Option<PollDesc>>, d: Seq<DeadlineEntry>, now: i64) -> (
    Seq<Option<PollDesc>>,
    Seq<DeadlineEntry>,
    Seq<usize>,
)
    decreases d.len(),
{
    if d.len() == 0 {
        (slots, d, Seq::empty())
    } else {
        let m = min_index(d);
        if d[m].deadline_ns > now {
            (slots, d, Seq::empty())
        } else {
            let f = fire_entry(slots, d[m]);
            proof {
                lemma_min_index(d);
            }
            let rest = fire_all(f.0, d.remove(m), now);
            (rest.0, rest.1, woken(f.1) + rest.2)
        }
    }
}

/// The descriptor in the slot of `slots` that the event `ev` names, when
/// the event is for it: nonzero bits, not the wakeup eventfd's cookie,
/// and the generation tag of the registration in that slot.
pub open spec fn event_target(slots: Seq<Option<PollDesc>>, ev: EpollEvent, evtag: u64) -> Option<PollDesc> {
    let slot = (ev.data % 0x1_0000_0000) as u32;
    if ev.events == 0 || ev.data == evtag {
        None
    } else {
        match slot_desc(slots, slot) {
            Some(pd) => if (ev.data / 0x1_0000_0000) % 0x10000 == pd.fdseq % 0x10000 {
                Some(pd)
            } else {
                None
            },
            None => None,
        }
    }
}

/// What one readiness event does to the two sides of a descriptor:
/// - an event with none of `EPOLLOUT`, `EPOLLHUP`, `EPOLLERR` leaves
///   every write side as it was and wakes no writer;
/// - an event with none of `EPOLLIN`, `EPOLLRDHUP`, `EPOLLHUP`,
///   `EPOLLERR` leaves every read side as it was and wakes no reader;
/// - an event with `EPOLLOUT` (resp. `EPOLLIN`) for a registration whose
///   writer (resp. reader) is parked wakes it and marks that side ready;
/// - no slot but the one the event names changes, and no goroutine is
///   woken but the two parked on that descriptor.
pub proof fn lemma_event_sides(slots: Seq<Option<PollDesc>>, ev: EpollEvent, evtag: u64)
    ensures
        ({
            let r = poll_event(slots, ev, evtag);
            let slot = (ev.data % 0x1_0000_0000) as u32;
            &&& r.0.len() == slots.len()
            &&& forall|i: int| 0 <= i < slots.len() && i != slot ==> r.0[i] == slots[i]
            &&& event_target(slots, ev, evtag) is None ==> r.0 == slots && r.1.len() == 0
            &&& (event_target(slots, ev, evtag) matches Some(pd) ==> ({
                let q = r.0[slot as int]->0;
                &&& r.0[slot as int] is Some
                &&& q.fd == pd.fd && q.id == pd.id && q.fdseq == pd.fdseq
                &&& q.rd == pd.rd && q.wd == pd.wd && q.rseq == pd.rseq && q.wseq == pd.wseq
                &&& forall|k: int| 0 <= k < r.1.len() ==> (#[trigger] r.1[k] == pd.rg || r.1[k] == pd.wg)
                &&& ev.events & (EPOLLOUT | EPOLLHUP | EPOLLERR) == 0 ==> q.wg == pd.wg
                    && forall|k: int| 0 <= k < r.1.len() ==> #[trigger] r.1[k] == pd.rg && r.1.len() <= 1
                &&& ev.events & (EPOLLIN | EPOLLRDHUP | EPOLLHUP | EPOLLERR) == 0 ==> q.rg == pd.rg
                    && forall|k: int| 0 <= k < r.1.len() ==> #[trigger] r.1[k] == pd.wg && r.1.len() <= 1
                &&& ev.events & EPOLLOUT != 0 && pd.wg != PD_NIL && pd.wg != PD_READY && pd.wg != PD_WAIT
                    ==> q.wg == PD_READY && r.1.contains(pd.wg)
                &&& ev.events & EPOLLIN != 0 && pd.rg != PD_NIL && pd.rg != PD_READY && pd.rg != PD_WAIT
                    ==> q.rg == PD_READY && r.1.contains(pd.rg)
            }))
        }),
{
    let r = poll_event(slots, ev, evtag);
    let bits = ev.events;
    assert(bits & EPOLLOUT != 0 ==> bits & (EPOLLOUT | EPOLLHUP | EPOLLERR) != 0) by (bit_vector);
    assert(bits & EPOLLIN != 0 ==> bits & (EPOLLIN | EPOLLRDHUP | EPOLLHUP | EPOLLERR) != 0) by (bit_vector);
    if let Some(pd) = event_target(slots, ev, evtag) {
        let g1 = if read_ready(bits) { unblock_spec(pd.rg, true).1 } else { None };
        let pd1 = if read_ready(bits) { PollDesc { rg: unblock_spec(pd.rg, true).0, ..pd } } else { pd };
        let g2 = if write_ready(bits) { unblock_spec(pd1.wg, true).1 } else { None };
        assert(r.1 == woken(g1) + woken(g2));
        if bits & EPOLLOUT != 0 && pd.wg != PD_NIL && pd.wg != PD_READY && pd.wg != PD_WAIT {
            assert(r.1[woken(g1).len() as int] == pd.wg);
        }
        if bits & EPOLLIN != 0 && pd.rg != PD_NIL && pd.rg != PD_READY && pd.rg != PD_WAIT {
            assert(r.1[0] == pd.rg);
        }
    }
}

/// Modes `a` and `b` name the same side (read or write) of a descriptor.
pub open spec fn same_side(a: u8, b: u8) -> bool {
    (a == MODE_READ) == (b == MODE_READ)
}

/// The entry `x` is for the side `mode` of registration `id` in `slot`.
pub open spec fn targets(x: DeadlineEntry, slot: u32, id: u64, mode: u8) -> bool {
    x.slot == slot && x.id == id && same_side(x.mode, mode)
}

/// `q` is `pd` as far as the side `mode` goes: same registration, and
/// the same generation, deadline and parker on that side.
pub open spec fn side_kept(pd: PollDesc, q: PollDesc, mode: u8) -> bool {
    &&& q.id == pd.id
    &&& seq_of(q, mode) == seq_of(pd, mode)
    &&& dl_of(q, mode) == dl_of(pd, mode)
    &&& gslot(q, mode) == gslot(pd, mode)
}

/// No entry of `d` for the side `mode` of `pd` in `slot` carries that
/// side's current generation.
pub open spec fn none_current(d: Seq<DeadlineEntry>, slot: u32, pd: PollDesc, mode: u8) -> bool {
    forall|j: int| 0 <= j < d.len() && #[trigger] targets(d[j], slot, pd.id, mode) ==> d[j].seq != seq_of(pd, mode)
}

/// Firing an entry that is not the current one for the side `mode` of
/// `pd` in `slot` leaves that side as it was.
proof fn lemma_fire_other(slots: Seq<Option<PollDesc>>, x: DeadlineEntry, slot: u32, pd: PollDesc, mode: u8)
    requires
        slot_desc(slots, slot) == Some(pd),
        targets(x, slot, pd.id, mode) ==> x.seq != seq_of(pd, mode),
    ensures
        slot_desc(fire_entry(slots, x).0, slot) matches Some(q) && side_kept(pd, q, mode),
        fire_entry(slots, x).0.len() == slots.len(),
{
}

/// Entries that are not current for the side `mode` of `pd` in `slot`
/// leave that side as it was, however many fire.
proof fn lemma_fire_all_keeps(slots: Seq<Option<PollDesc>>, d: Seq<DeadlineEntry>, now: i64, slot: u32, pd: PollDesc, mode: u8)
    requires
        slot_desc(slots, slot) == Some(pd),
        none_current(d, slot, pd, mode),
    ensures
        slot_desc(fire_all(slots, d, now).0, slot) matches Some(q) && side_kept(pd, q, mode),
    decreases d.len(),
{
    if d.len() > 0 {
        lemma_min_index(d);
        let m = min_index(d);
        if d[m].deadline_ns <= now {
            lemma_fire_other(slots, d[m], slot, pd, mode);
            let f = fire_entry(slots, d[m]);
            let q = slot_desc(f.0, slot)->0;
            let r = d.remove(m);
            assert forall|j: int| 0 <= j < r.len() && #[trigger] targets(r[j], slot, q.id, mode) implies r[j].seq
                != seq_of(q, mode) by {
                let jj = if j < m { j } else { j + 1 };
                assert(r[j] == d[jj]);
                assert(targets(d[jj], slot, pd.id, mode));
            }
            lemma_fire_all_keeps(f.0, r, now, slot, q, mode);
        }
    }
}

/// A deadline fires when, and only when, it is due. Let the entry
/// `d[k]` be the one queued by the last `set_deadline` of a positive
/// deadline on its side of the descriptor in its slot (that descriptor
/// still holds it: same registration, same generation, the same
/// deadline; a later `set_deadline` or a `close` would have moved the
/// generation on, and then the entry fires as nothing). If `now` has
/// reached the deadline, firing leaves that side's deadline expired
/// (-1), clears its parker, and wakes the goroutine parked there; if
/// not, the side keeps its deadline and its parker, and the entry
/// stays queued.
pub proof fn lemma_deadline_fires_when_due(slots: Seq<Option<PollDesc>>, d: Seq<DeadlineEntry>, now: i64, k: int)
    requires
        0 <= k < d.len(),
        slot_desc(slots, d[k].slot) matches Some(pd) && pd.id == d[k].id && seq_of(pd, d[k].mode) == d[k].seq
            && dl_of(pd, d[k].mode) == d[k].deadline_ns,
        forall|j: int|
            0 <= j < d.len() && j != k && #[trigger] targets(d[j], d[k].slot, d[k].id, d[k].mode) ==> d[j].seq
                != d[k].seq,
    ensures
        ({
            let e = d[k];
            let pd = slot_desc(slots, e.slot)->0;
            let r = fire_all(slots, d, now);
            let u = unblock_spec(gslot(pd, e.mode), false);
            &&& now >= e.deadline_ns ==> (slot_desc(r.0, e.slot) matches Some(q) && q.id == pd.id && dl_of(q, e.mode) == -1
                && gslot(q, e.mode) == u.0 && (u.1 matches Some(g) ==> r.2.contains(g)))
            &&& now < e.deadline_ns ==> (slot_desc(r.0, e.slot) matches Some(q) && side_kept(pd, q, e.mode)
                && r.1.contains(e))
        }),
    decreases d.len(),
{
    let e = d[k];
    let pd = slot_desc(slots, e.slot)->0;
    lemma_min_index(d);
    let m = min_index(d);
    if d[m].deadline_ns > now {
        assert(d[k].deadline_ns >= d[m].deadline_ns);
        assert(d.contains(e));
    } else {
        let f = fire_entry(slots, d[m]);
        let r = d.remove(m);
        let rest = fire_all(f.0, r, now);
        let u = unblock_spec(gslot(pd, e.mode), false);
        assert(fire_all(slots, d, now) == (rest.0, rest.1, woken(f.1) + rest.2));
        if m == k {
            let q = set_gslot(set_dl(pd, e.mode, -1i64), e.mode, u.0);
            assert(f.0 == slots.update(e.slot as int, Some(q)));
            assert(slot_desc(f.0, e.slot) == Some(q));
            assert forall|j: int| 0 <= j < r.len() && #[trigger] targets(r[j], e.slot, q.id, e.mode) implies r[j].seq
                != seq_of(q, e.mode) by {
                let jj = if j < m { j } else { j + 1 };
                assert(r[j] == d[jj]);
                assert(targets(d[jj], e.slot, e.id, e.mode));
            }
            lemma_fire_all_keeps(f.0, r, now, e.slot, q, e.mode);
            if u.1 is Some {
                assert(f.1 == u.1);
                assert((woken(f.1) + rest.2)[0] == u.1->0);
            }
        } else {
            assert(!targets(d[m], e.slot, e.id, e.mode) || d[m].seq != e.seq);
            lemma_fire_other(slots, d[m], e.slot, pd, e.mode);
            let q = slot_desc(f.0, e.slot)->0;
            let k2 = if k < m { k } else { k - 1 };
            assert(r[k2] == e);
            assert forall|j: int| 0 <= j < r.len() && j != k2 && #[trigger] targets(r[j], r[k2].slot, r[k2].id, r[k2].mode)
                implies r[j].seq != r[k2].seq by {
                let jj = if j < m { j } else { j + 1 };
                assert(r[j] == d[jj]);
                assert(jj != k);
            }
            lemma_deadline_fires_when_due(f.0, r, now, k2);
            let w = woken(f.1) + rest.2;
            if now >= e.deadline_ns && u.1 is Some {
                let g = u.1->0;
                assert(unblock_spec(gslot(q, e.mode), false) == u);
                let i = choose|i: int| 0 <= i < rest.2.len() && rest.2[i] == g;
                assert(w[woken(f.1).len() + i] == g);
            }
            if now < e.deadline_ns {
                assert(unblock_spec(gslot(q, e.mode), false) == u);
            }
        }
    }
}

impl Netpoll {
    /// An empty poller.
    pub fn new() -> (np: Self)
        ensures
            np@.slots == Seq::<Option<PollDesc>>::empty(),
            np@.free == Seq::<u32>::empty(),
            np@.live == 0 && np@.total_opens == 0 && np@.recycled == 0 && np@.next_id == 0,
            np@.deadlines == Seq::<DeadlineEntry>::empty(),
            slab_ok(np@),
    {
        let np = Netpoll {
            slots: Vec::new(),
            free: Vec::new(),
            live: 0,
            total_opens: 0,
            recycled: 0,
            next_id: 0,
            deadlines: Vec::new(),
        };
        assert(np@.slots =~= Seq::<Option<PollDesc>>::empty());
        assert(np@.free =~= Seq::<u32>::empty());
        assert(np@.deadlines =~= Seq::<DeadlineEntry>::empty());
        np
    }

    /// Registered descriptors.
    pub fn live_count(&self) -> (n: usize)
        ensures
            n == self@.live,
    {
        self.live
    }

    /// Successful registrations so far.
    pub fn total_opens_count(&self) -> (n: usize)
        ensures
            n == self@.total_opens,
    {
        self.total_opens
    }

    /// Registrations that reused a freed slot.
    pub fn recycled_count(&self) -> (n: usize)
        ensures
            n == self@.recycled,
    {
        self.recycled
    }

    /// Bytes the registered descriptors take, at `desc_size` each.
    pub fn live_bytes(&self, desc_size: usize) -> (n: usize)
        requires
            self@.live * desc_size <= usize::MAX,
        ensures
            n == self@.live * desc_size,
    {
        self.live * desc_size
    }

    /// A slot is free for one more registration: one was freed, or the
    /// slab has not yet reached `u32::MAX` slots.
    pub fn can_open(&self) -> (r: bool)
        ensures
            r == (self@.free.len() > 0 || self@.slots.len() < u32::MAX),
    {
        self.free.len() > 0 || self.slots.len() < u32::MAX as usize
    }

    /// The descriptor registered in `slot`, if any.
    pub fn registry_get(&self, slot: u32) -> (r: Option<PollDesc>)
        ensures
            r == desc_at(self@, slot),
    {
        if (slot as usize) < self.slots.len() {
            self.slots[slot as usize]
        } else {
            None
        }
    }

    /// Puts `pd` in a slot, reusing the last freed one when there is
    /// one, and returns the slot.
    fn registry_insert(&mut self, pd: PollDesc) -> (idx: u32)
        requires
            slab_ok(old(self)@),
            old(self)@.free.len() > 0 || old(self)@.slots.len() < u32::MAX,
        ensures
            slab_ok(final(self)@),
            old(self)@.free.len() > 0 ==> {
                &&& idx == old(self)@.free.last()
                &&& final(self)@.free == old(self)@.free.drop_last()
                &&& final(self)@.slots == old(self)@.slots.update(idx as int, Some(pd))
                &&& final(self)@.recycled == usize_specs::wrapping_add((old(self)@.recycled as usize), 1)
            },
            old(self)@.free.len() == 0 ==> {
                &&& idx == old(self)@.slots.len()
                &&& final(self)@.free == old(self)@.free
                &&& final(self)@.slots == old(self)@.slots.push(Some(pd))
                &&& final(self)@.recycled == old(self)@.recycled
            },
            final(self)@.live == old(self)@.live,
            final(self)@.total_opens == old(self)@.total_opens,
            final(self)@.next_id == old(self)@.next_id,
            final(self)@.deadlines == old(self)@.deadlines,
    {
        let ghost v0 = self@;
        match self.free.pop() {
            Some(idx) => {
                self.slots.set(idx as usize, Some(pd));
                self.recycled = self.recycled.wrapping_add(1);
                proof {
                    let v = self@;
                    assert(v.free =~= v0.free.drop_last());
                    assert forall|i: int| 0 <= i < v.slots.len() && #[trigger] v.slots[i] is None implies v.free.contains(
                        i as u32,
                    ) by {
                        assert(i != idx as int);
                        assert(v0.slots[i] is None);
                        let k = choose|k: int| 0 <= k < v0.free.len() && v0.free[k] == i as u32;
                        assert(k != v0.free.len() - 1);
                        assert(v.free[k] == i as u32);
                    }
                    assert forall|k: int| 0 <= k < v.free.len() implies v.slots[#[trigger] v.free[k] as int] is None by {
                        assert(v0.free[k] != v0.free[v0.free.len() - 1]);
                    }
                }
                idx
            },
            None => {
                let idx = self.slots.len() as u32;
                self.slots.push(Some(pd));
                proof {
                    let v = self@;
                    assert forall|i: int| 0 <= i < v.slots.len() && #[trigger] v.slots[i] is None implies v.free.contains(
                        i as u32,
                    ) by {
                        assert(i < v0.slots.len());
                        assert(v0.slots[i] is None);
                    }
                }
                idx
            },
        }
    }

    /// Takes the descriptor out of `slot`, freeing the slot; `None`
    /// when the slot holds none.
    fn registry_remove(&mut self, idx: u32) -> (r: Option<PollDesc>)
        requires
            slab_ok(old(self)@),
        ensures
            slab_ok(final(self)@),
            r == desc_at(old(self)@, idx),
            r is Some ==> final(self)@.slots == old(self)@.slots.update(idx as int, None)
                && final(self)@.free == old(self)@.free.push(idx),
            r is None ==> final(self)@.slots == old(self)@.slots && final(self)@.free == old(self)@.free,
            final(self)@.live == old(self)@.live,
            final(self)@.total_opens == old(self)@.total_opens,
            final(self)@.recycled == old(self)@.recycled,
            final(self)@.next_id == old(self)@.next_id,
            final(self)@.deadlines == old(self)@.deadlines,
    {
        let i = idx as usize;
        if i >= self.slots.len() {
            return None;
        }
        let removed = self.slots[i];
        if removed.is_some() {
            let ghost v0 = self@;
            self.slots.set(i, None);
            self.free.push(idx);
            proof {
                let v = self@;
                assert forall|k: int| 0 <= k < v0.free.len() implies v0.free[k] != idx by {
                    assert(v0.slots[v0.free[k] as int] is None);
                }
                assert forall|i2: int| 0 <= i2 < v.slots.len() && #[trigger] v.slots[i2] is None implies v.free.contains(
                    i2 as u32,
                ) by {
                    if i2 == i {
                        assert(v.free[v.free.len() - 1] == idx);
                    } else {
                        assert(v0.slots[i2] is None);
                        let k = choose|k: int| 0 <= k < v0.free.len() && v0.free[k] == i2 as u32;
                        assert(v.free[k] == i2 as u32);
                    }
                }
                assert forall|k: int| 0 <= k < v.free.len() implies v.slots[#[trigger] v.free[k] as int] is None by {
                    if k < v0.free.len() {
                        assert(v0.free[k] != idx);
                    }
                }
            }
        }
        removed
    }

    /// First half of registering `fd`: a fresh descriptor goes into a
    /// slot, and the slot and the cookie to register it with epoll
    /// are returned. `open_registered` or `open_failed` follows.
    pub fn open(&mut self, fd: i32) -> (r: (u32, u64))
        requires
            slab_ok(old(self)@),
            old(self)@.free.len() > 0 || old(self)@.slots.len() < u32::MAX,
        ensures
            slab_ok(final(self)@),
            r.1 == event_data(r.0, 1),
            desc_at(final(self)@, r.0) == Some(PollDesc { slot: r.0, ..fresh_desc(fd, (old(self)@.next_id as u64)) }),
            old(self)@.free.len() > 0 ==> r.0 == old(self)@.free.last() && final(self)@.free
                == old(self)@.free.drop_last() && final(self)@.recycled == usize_specs::wrapping_add(
                (old(self)@.recycled as usize),
                1,
            ),
            old(self)@.free.len() == 0 ==> r.0 == old(self)@.slots.len() && final(self)@.free
                == old(self)@.free && final(self)@.recycled == old(self)@.recycled,
            final(self)@.slots == old(self)@.slots.update(r.0 as int, Some(PollDesc { slot: r.0, ..fresh_desc(fd, (old(self)@.next_id as u64)) }))
                || final(self)@.slots == old(self)@.slots.push(Some(PollDesc { slot: r.0, ..fresh_desc(fd, (old(self)@.next_id as u64)) })),
            final(self)@.slots.len() == old(self)@.slots.len() + (if old(self)@.free.len() == 0 { 1int } else { 0int }),
            forall|s: u32| s != r.0 ==> desc_at(final(self)@, s) == desc_at(old(self)@, s),
            final(self)@.next_id == u64_specs::wrapping_add((old(self)@.next_id as u64), 1),
            final(self)@.live == old(self)@.live,
            final(self)@.total_opens == old(self)@.total_opens,
            final(self)@.deadlines == old(self)@.deadlines,
    {
        let id = self.next_id;
        self.next_id = self.next_id.wrapping_add(1);
        let pd = PollDesc {
            fd,
            slot: u32::MAX,
            rg: PD_NIL,
            wg: PD_NIL,
            rd: 0,
            wd: 0,
            rseq: 0,
            wseq: 0,
            fdseq: 1,
            id,
        };
        let ghost v0 = self@;
        let slot = self.registry_insert(PollDesc { slot: 0, ..pd });
        let ghost v1 = self@;
        let placed = PollDesc { slot, ..pd };
        self.slots.set(slot as usize, Some(placed));
        proof {
            let v = self@;
            assert(v.free == v1.free);
            if v0.free.len() > 0 {
                assert(v.slots =~= v0.slots.update(slot as int, Some(placed)));
            } else {
                assert(v.slots =~= v0.slots.push(Some(placed)));
            }
            assert forall|i: int| 0 <= i < v.slots.len() && #[trigger] v.slots[i] is None implies v.free.contains(
                i as u32,
            ) by {
                assert(v1.slots[i] is None);
            }
            assert forall|k: int| 0 <= k < v.free.len() implies v.slots[#[trigger] v.free[k] as int] is None by {
                assert(v1.slots[v1.free[k] as int] is None);
            }
        }
        (slot, pack_event_data(slot, 1))
    }

    /// Second half of a registration epoll accepted: it counts.
    pub fn open_registered(&mut self)
        ensures
            final(self)@.live == usize_specs::wrapping_add((old(self)@.live as usize), 1),
            final(self)@.total_opens == usize_specs::wrapping_add((old(self)@.total_opens as usize), 1),
            final(self)@.slots == old(self)@.slots,
            final(self)@.free == old(self)@.free,
            final(self)@.recycled == old(self)@.recycled,
            final(self)@.next_id == old(self)@.next_id,
            final(self)@.deadlines == old(self)@.deadlines,
    {
        self.live = self.live.wrapping_add(1);
        self.total_opens = self.total_opens.wrapping_add(1);
    }

    /// Second half of a registration epoll refused: the slot is freed
    /// again.
    pub fn open_failed(&mut self, slot: u32)
        requires
            slab_ok(old(self)@),
        ensures
            slab_ok(final(self)@),
            desc_at(old(self)@, slot) is Some ==> final(self)@.slots == old(self)@.slots.update(slot as int, None)
                && final(self)@.free == old(self)@.free.push(slot),
            desc_at(old(self)@, slot) is None ==> final(self)@.slots == old(self)@.slots
                && final(self)@.free == old(self)@.free,
            final(self)@.live == old(self)@.live,
            final(self)@.total_opens == old(self)@.total_opens,
            final(self)@.recycled == old(self)@.recycled,
            final(self)@.next_id == old(self)@.next_id,
            final(self)@.deadlines == old(self)@.deadlines,
    {
        let _ = self.registry_remove(slot);
    }

    /// Unregisters the descriptor in `slot`: its generations move on,
    /// so stale events and pending deadlines for it are dropped, and the
    /// slot is freed. Returns the descriptor as it was left, or `None`
    /// when the slot held none.
    pub fn close(&mut self, slot: u32) -> (r: Option<PollDesc>)
        requires
            slab_ok(old(self)@),
        ensures
            slab_ok(final(self)@),
            match desc_at(old(self)@, slot) {
                Some(pd) => {
                    &&& r == Some(PollDesc {
                        fdseq: u32_specs::wrapping_add(pd.fdseq, 1),
                        rseq: u32_specs::wrapping_add(pd.rseq, 1),
                        wseq: u32_specs::wrapping_add(pd.wseq, 1),
                        ..pd
                    })
                    &&& final(self)@.slots == old(self)@.slots.update(slot as int, None)
                    &&& final(self)@.free == old(self)@.free.push(slot)
                    &&& final(self)@.live == usize_specs::wrapping_sub((old(self)@.live as usize), 1)
                },
                None => r is None && final(self)@.slots == old(self)@.slots && final(self)@.free
                    == old(self)@.free && final(self)@.live == old(self)@.live,
            },
            final(self)@.total_opens == old(self)@.total_opens,
            final(self)@.recycled == old(self)@.recycled,
            final(self)@.next_id == old(self)@.next_id,
            final(self)@.deadlines == old(self)@.deadlines,
    {
        match self.registry_remove(slot) {
            Some(pd) => {
                self.live = self.live.wrapping_sub(1);
                Some(
                    PollDesc {
                        fdseq: pd.fdseq.wrapping_add(1),
                        rseq: pd.rseq.wrapping_add(1),
                        wseq: pd.wseq.wrapping_add(1),
                        ..pd
                    },
                )
            },
            None => None,
        }
    }

    /// Replaces the descriptor in an occupied slot.
    fn put_desc(&mut self, slot: u32, pd: PollDesc)
        requires
            slab_ok(old(self)@),
            desc_at(old(self)@, slot) is Some,
        ensures
            slab_ok(final(self)@),
            final(self)@.slots == old(self)@.slots.update(slot as int, Some(pd)),
            final(self)@.free == old(self)@.free,
            final(self)@.live == old(self)@.live,
            final(self)@.total_opens == old(self)@.total_opens,
            final(self)@.recycled == old(self)@.recycled,
            final(self)@.next_id == old(self)@.next_id,
            final(self)@.deadlines == old(self)@.deadlines,
    {
        let ghost v0 = self@;
        self.slots.set(slot as usize, Some(pd));
        proof {
            let v = self@;
            assert forall|i: int| 0 <= i < v.slots.len() && #[trigger] v.slots[i] is None implies v.free.contains(
                i as u32,
            ) by {
                assert(v0.slots[i] is None);
            }
            assert forall|k: int| 0 <= k < v.free.len() implies v.slots[#[trigger] v.free[k] as int] is None by {
                assert(v0.slots[v0.free[k] as int] is None);
            }
        }
    }

    /// The first step of parking on `slot` for `mode`: an expired
    /// deadline ends it at once; a pending readiness is consumed;
    /// otherwise the parker state goes to `PD_WAIT`. Nobody else may be
    /// waiting in the same mode.
    pub fn block_begin(&mut self, slot: u32, mode: u8) -> (r: BlockStart)
        requires
            slab_ok(old(self)@),
            desc_at(old(self)@, slot) matches Some(pd) && gslot(pd, mode) <= PD_READY,
        ensures
            slab_ok(final(self)@),
            ({
                let pd = desc_at(old(self)@, slot)->0;
                if dl_of(pd, mode) < 0 {
                    r == BlockStart::Timedout && final(self)@ == old(self)@
                } else if gslot(pd, mode) == PD_READY {
                    r == BlockStart::Ready && final(self)@.slots == old(self)@.slots.update(
                        slot as int,
                        Some(set_gslot(pd, mode, PD_NIL)),
                    )
                } else {
                    r == BlockStart::Park && final(self)@.slots == old(self)@.slots.update(
                        slot as int,
                        Some(set_gslot(pd, mode, PD_WAIT)),
                    )
                }
            }),
            final(self)@.free == old(self)@.free,
            final(self)@.live == old(self)@.live,
            final(self)@.total_opens == old(self)@.total_opens,
            final(self)@.recycled == old(self)@.recycled,
            final(self)@.next_id == old(self)@.next_id,
            final(self)@.deadlines == old(self)@.deadlines,
    {
        let pd = self.slots[slot as usize].unwrap();
        let dl = if mode == MODE_READ {
            pd.rd
        } else {
            pd.wd
        };
        if dl < 0 {
            return BlockStart::Timedout;
        }
        let cur = if mode == MODE_READ {
            pd.rg
        } else {
            pd.wg
        };
        let nv = if cur == PD_READY {
            PD_NIL
        } else {
            PD_WAIT
        };
        let npd = if mode == MODE_READ {
            PollDesc { rg: nv, ..pd }
        } else {
            PollDesc { wg: nv, ..pd }
        };
        self.put_desc(slot, npd);
        if cur == PD_READY {
            BlockStart::Ready
        } else {
            BlockStart::Park
        }
    }

    /// Commits the park of goroutine `g` on `slot` for `mode`: only
    /// when the parker state still waits, which a wake-up in between
    /// prevents (the park is then abandoned).
    pub fn park_commit(&mut self, slot: u32, mode: u8, g: usize) -> (parked: bool)
        requires
            slab_ok(old(self)@),
            g > PD_WAIT,
        ensures
            slab_ok(final(self)@),
            parked == (desc_at(old(self)@, slot) matches Some(pd) && gslot(pd, mode) == PD_WAIT),
            parked ==> final(self)@.slots == old(self)@.slots.update(
                slot as int,
                Some(set_gslot(desc_at(old(self)@, slot)->0, mode, g)),
            ),
            !parked ==> final(self)@.slots == old(self)@.slots,
            final(self)@.free == old(self)@.free,
            final(self)@.live == old(self)@.live,
            final(self)@.total_opens == old(self)@.total_opens,
            final(self)@.recycled == old(self)@.recycled,
            final(self)@.next_id == old(self)@.next_id,
            final(self)@.deadlines == old(self)@.deadlines,
    {
        match self.registry_get(slot) {
            Some(pd) => {
                let cur = if mode == MODE_READ {
                    pd.rg
                } else {
                    pd.wg
                };
                if cur != PD_WAIT {
                    return false;
                }
                let npd = if mode == MODE_READ {
                    PollDesc { rg: g, ..pd }
                } else {
                    PollDesc { wg: g, ..pd }
                };
                self.put_desc(slot, npd);
                true
            },
            None => false,
        }
    }

    /// The last step of a park, once the goroutine runs again: the
    /// parker state is cleared; a readiness makes it `Ready`, else an
    /// expired deadline `Timedout`, else `Aborted`. A descriptor closed
    /// meanwhile gives `Aborted`.
    pub fn block_finish(&mut self, slot: u32, mode: u8) -> (r: BlockResult)
        requires
            slab_ok(old(self)@),
            desc_at(old(self)@, slot) matches Some(pd) ==> gslot(pd, mode) <= PD_WAIT,
        ensures
            slab_ok(final(self)@),
            match desc_at(old(self)@, slot) {
                Some(pd) => {
                    &&& final(self)@.slots == old(self)@.slots.update(slot as int, Some(set_gslot(pd, mode, PD_NIL)))
                    &&& r == (if gslot(pd, mode) == PD_READY {
                        BlockResult::Ready
                    } else if dl_of(pd, mode) < 0 {
                        BlockResult::Timedout
                    } else {
                        BlockResult::Aborted
                    })
                },
                None => r == BlockResult::Aborted && final(self)@.slots == old(self)@.slots,
            },
            final(self)@.free == old(self)@.free,
            final(self)@.live == old(self)@.live,
            final(self)@.total_opens == old(self)@.total_opens,
            final(self)@.recycled == old(self)@.recycled,
            final(self)@.next_id == old(self)@.next_id,
            final(self)@.deadlines == old(self)@.deadlines,
    {
        match self.registry_get(slot) {
            Some(pd) => {
                let (cur, dl) = if mode == MODE_READ {
                    (pd.rg, pd.rd)
                } else {
                    (pd.wg, pd.wd)
                };
                let npd = if mode == MODE_READ {
                    PollDesc { rg: PD_NIL, ..pd }
                } else {
                    PollDesc { wg: PD_NIL, ..pd }
                };
                self.put_desc(slot, npd);
                if cur == PD_READY {
                    BlockResult::Ready
                } else if dl < 0 {
                    BlockResult::Timedout
                } else {
                    BlockResult::Aborted
                }
            },
            None => BlockResult::Aborted,
        }
    }

    /// Sets (`deadline_ns > 0`), clears (0) or expires at once (< 0)
    /// the deadline of `mode` on the descriptor in `slot`. The
    /// generation moves on first, so earlier pending deadlines no longer
    /// count; a future deadline is queued; an expired one clears the
    /// parker and returns whom that wakes. Nothing happens for an
    /// empty slot.
    pub fn set_deadline(&mut self, slot: u32, deadline_ns: i64, mode: u8) -> (g: Option<usize>)
        requires
            slab_ok(old(self)@),
        ensures
            slab_ok(final(self)@),
            match desc_at(old(self)@, slot) {
                None => g is None && final(self)@ == old(self)@,
                Some(pd) => {
                    let b = bump_seq(pd, mode);
                    if deadline_ns == 0 {
                        &&& g is None
                        &&& final(self)@.slots == old(self)@.slots.update(slot as int, Some(set_dl(b, mode, 0i64)))
                        &&& final(self)@.deadlines == old(self)@.deadlines
                    } else if deadline_ns < 0 {
                        let u = unblock_spec(gslot(b, mode), false);
                        &&& g == u.1
                        &&& final(self)@.slots == old(self)@.slots.update(
                            slot as int,
                            Some(set_gslot(set_dl(b, mode, -1i64), mode, u.0)),
                        )
                        &&& final(self)@.deadlines == old(self)@.deadlines
                    } else {
                        &&& g is None
                        &&& final(self)@.slots == old(self)@.slots.update(
                            slot as int,
                            Some(set_dl(b, mode, deadline_ns)),
                        )
                        &&& final(self)@.deadlines == old(self)@.deadlines.push(DeadlineEntry {
                            deadline_ns,
                            slot,
                            id: pd.id,
                            mode,
                            seq: seq_of(b, mode),
                        })
                    }
                },
            },
            final(self)@.free == old(self)@.free,
            final(self)@.live == old(self)@.live,
            final(self)@.total_opens == old(self)@.total_opens,
            final(self)@.recycled == old(self)@.recycled,
            final(self)@.next_id == old(self)@.next_id,
    {
        let pd0 = match self.registry_get(slot) {
            Some(pd) => pd,
            None => {
                return None;
            },
        };
        let mut pd = if mode == MODE_READ {
            PollDesc { rseq: pd0.rseq.wrapping_add(1), ..pd0 }
        } else {
            PollDesc { wseq: pd0.wseq.wrapping_add(1), ..pd0 }
        };
        if deadline_ns == 0 {
            if mode == MODE_READ {
                pd.rd = 0;
            } else {
                pd.wd = 0;
            }
            self.put_desc(slot, pd);
            return None;
        }
        if deadline_ns < 0 {
            if mode == MODE_READ {
                pd.rd = -1;
            } else {
                pd.wd = -1;
            }
            let g = unblock(&mut pd, mode, false);
            self.put_desc(slot, pd);
            return g;
        }
        if mode == MODE_READ {
            pd.rd = deadline_ns;
        } else {
            pd.wd = deadline_ns;
        }
        let seq = if mode == MODE_READ {
            pd.rseq
        } else {
            pd.wseq
        };
        self.put_desc(slot, pd);
        self.deadlines.push(DeadlineEntry { deadline_ns, slot, id: pd.id, mode, seq });
        None
    }

    /// One due deadline, as `fire_entry` says.
    fn fire_one(&mut self, e: DeadlineEntry) -> (g: Option<usize>)
        requires
            slab_ok(old(self)@),
        ensures
            slab_ok(final(self)@),
            final(self)@.slots == fire_entry(old(self)@.slots, e).0,
            g == fire_entry(old(self)@.slots, e).1,
            final(self)@.free == old(self)@.free,
            final(self)@.live == old(self)@.live,
            final(self)@.total_opens == old(self)@.total_opens,
            final(self)@.recycled == old(self)@.recycled,
            final(self)@.next_id == old(self)@.next_id,
            final(self)@.deadlines == old(self)@.deadlines,
    {
        let pd0 = match self.registry_get(e.slot) {
            Some(pd) => pd,
            None => {
                return None;
            },
        };
        let seq = if e.mode == MODE_READ {
            pd0.rseq
        } else {
            pd0.wseq
        };
        if pd0.id != e.id || seq != e.seq {
            return None;
        }
        let mut pd = pd0;
        if e.mode == MODE_READ {
            pd.rd = -1;
        } else {
            pd.wd = -1;
        }
        let g = unblock(&mut pd, e.mode, false);
        self.put_desc(e.slot, pd);
        g
    }

    /// Fires every deadline due at `now` (`deadline_ns <= now`),
    /// earliest first, and returns the goroutines to make runnable.
    /// Deadlines whose descriptor is gone, was replaced in its slot, or
    /// whose generation moved on are dropped without effect.
    pub fn fire_expired_deadlines(&mut self, now: i64) -> (w: Vec<usize>)
        requires
            slab_ok(old(self)@),
        ensures
            slab_ok(final(self)@),
            final(self)@.slots == fire_all(old(self)@.slots, old(self)@.deadlines, now).0,
            final(self)@.deadlines == fire_all(old(self)@.slots, old(self)@.deadlines, now).1,
            w@ == fire_all(old(self)@.slots, old(self)@.deadlines, now).2,
            final(self)@.free == old(self)@.free,
            final(self)@.live == old(self)@.live,
            final(self)@.total_opens == old(self)@.total_opens,
            final(self)@.recycled == old(self)@.recycled,
            final(self)@.next_id == old(self)@.next_id,
    {
        let ghost target = fire_all(self@.slots, self@.deadlines, now);
        let mut w: Vec<usize> = Vec::new();
        loop
            invariant
                slab_ok(self@),
                self@.free == old(self)@.free,
                self@.live == old(self)@.live,
                self@.total_opens == old(self)@.total_opens,
                self@.recycled == old(self)@.recycled,
                self@.next_id == old(self)@.next_id,
                target == fire_all(old(self)@.slots, old(self)@.deadlines, now),
                fire_all(self@.slots, self@.deadlines, now).0 == target.0,
                fire_all(self@.slots, self@.deadlines, now).1 == target.1,
                w@ + fire_all(self@.slots, self@.deadlines, now).2 == target.2,
            ensures
                slab_ok(self@),
                self@.free == old(self)@.free,
                self@.live == old(self)@.live,
                self@.total_opens == old(self)@.total_opens,
                self@.recycled == old(self)@.recycled,
                self@.next_id == old(self)@.next_id,
                self@.slots == target.0,
                self@.deadlines == target.1,
                w@ == target.2,
            decreases self.deadlines.len(),
        {
            let n = self.deadlines.len();
            if n == 0 {
                assert(w@ + Seq::<usize>::empty() =~= w@);
                break;
            }
            let ghost d = self@.deadlines;
            let mut m: usize = 0;
            let mut i: usize = 1;
            while i < n
                invariant
                    1 <= i <= n,
                    n == d.len(),
                    d == self@.deadlines,
                    m == min_index(d.take(i as int)),
                decreases n - i,
            {
                proof {
                    assert(d.take(i + 1).drop_last() =~= d.take(i as int));
                    lemma_min_index(d.take(i as int));
                    assert(d.take(i as int)[m as int] == d[m as int]);
                }
                if self.deadlines[i].deadline_ns < self.deadlines[m].deadline_ns {
                    m = i;
                }
                i = i + 1;
            }
            proof {
                assert(d.take(n as int) =~= d);
                lemma_min_index(d);
            }
            let e = self.deadlines[m];
            if e.deadline_ns > now {
                assert(w@ + Seq::<usize>::empty() =~= w@);
                break;
            }
            self.deadlines.remove(m);
            let g = self.fire_one(e);
            proof {
                let f = fire_entry(old(self)@.slots, e);
                assert(self@.deadlines == d.remove(m as int));
            }
            match g {
                Some(x) => {
                    w.push(x);
                },
                None => {},
            }
            proof {
                let rest = fire_all(self@.slots, self@.deadlines, now);
                assert(w@ + rest.2 =~= target.2);
            }
        }
        w
    }

    /// One epoll event, as `poll_event` says; whom it wakes is added to
    /// `w`.
    fn poll_one(&mut self, ev: EpollEvent, evtag: u64, w: &mut Vec<usize>)
        requires
            slab_ok(old(self)@),
        ensures
            slab_ok(final(self)@),
            final(self)@.slots == poll_event(old(self)@.slots, ev, evtag).0,
            final(w)@ == old(w)@ + poll_event(old(self)@.slots, ev, evtag).1,
            final(self)@.free == old(self)@.free,
            final(self)@.live == old(self)@.live,
            final(self)@.total_opens == old(self)@.total_opens,
            final(self)@.recycled == old(self)@.recycled,
            final(self)@.next_id == old(self)@.next_id,
            final(self)@.deadlines == old(self)@.deadlines,
    {
        if ev.events == 0 || ev.data == evtag {
            assert(w@ =~= old(w)@ + Seq::<usize>::empty());
            return;
        }
        let slot = unpack_slot(ev.data);
        let tag = unpack_tag(ev.data);
        let pd0 = match self.registry_get(slot) {
            Some(pd) => pd,
            None => {
                assert(w@ =~= old(w)@ + Seq::<usize>::empty());
                return;
            },
        };
        if tag != pd0.fdseq % 0x10000 {
            assert(w@ =~= old(w)@ + Seq::<usize>::empty());
            return;
        }
        let mut pd = pd0;
        let mut g1: Option<usize> = None;
        if ev.events & (EPOLLIN | EPOLLRDHUP | EPOLLHUP | EPOLLERR) != 0 {
            g1 = unblock(&mut pd, MODE_READ, true);
        }
        let mut g2: Option<usize> = None;
        if ev.events & (EPOLLOUT | EPOLLHUP | EPOLLERR) != 0 {
            g2 = unblock(&mut pd, 0x77u8, true);
        }
        self.put_desc(slot, pd);
        match g1 {
            Some(x) => {
                w.push(x);
            },
            None => {},
        }
        match g2 {
            Some(x) => {
                w.push(x);
            },
            None => {},
        }
        assert(w@ =~= old(w)@ + poll_event(old(self)@.slots, ev, evtag).1);
    }

    /// Takes the events one epoll wait returned: readiness reaches the
    /// parkers of the descriptors it names, and the goroutines to make
    /// runnable are returned, with whether the wake-up eventfd fired
    /// (its counter is then to be drained, unless `delay_ms` is 0).
    pub fn poll(&mut self, events: &[EpollEvent], evtag: u64, delay_ms: i32) -> (r: (Vec<usize>, bool))
        requires
            slab_ok(old(self)@),
        ensures
            slab_ok(final(self)@),
            final(self)@.slots == poll_all(old(self)@.slots, events@, evtag).0,
            r.0@ == poll_all(old(self)@.slots, events@, evtag).1,
            r.1 == (delay_ms != 0 && exists|k: int|
                0 <= k < events@.len() && #[trigger] events@[k].events != 0 && events@[k].data == evtag),
            final(self)@.free == old(self)@.free,
            final(self)@.live == old(self)@.live,
            final(self)@.total_opens == old(self)@.total_opens,
            final(self)@.recycled == old(self)@.recycled,
            final(self)@.next_id == old(self)@.next_id,
            final(self)@.deadlines == old(self)@.deadlines,
    {
        let mut w: Vec<usize> = Vec::new();
        let mut drain = false;
        let mut i: usize = 0;
        while i < events.len()
            invariant
                i <= events.len(),
                slab_ok(self@),
                self@.slots == poll_all(old(self)@.slots, events@.take(i as int), evtag).0,
                w@ == poll_all(old(self)@.slots, events@.take(i as int), evtag).1,
                drain == (delay_ms != 0 && exists|k: int|
                    0 <= k < i && #[trigger] events@[k].events != 0 && events@[k].data == evtag),
                self@.free == old(self)@.free,
                self@.live == old(self)@.live,
                self@.total_opens == old(self)@.total_opens,
                self@.recycled == old(self)@.recycled,
                self@.next_id == old(self)@.next_id,
                self@.deadlines == old(self)@.deadlines,
            decreases events.len() - i,
        {
            let ev = events[i];
            if ev.events != 0 && ev.data == evtag && delay_ms != 0 {
                drain = true;
            }
            proof {
                assert(events@.take(i + 1).drop_last() =~= events@.take(i as int));
            }
            self.poll_one(ev, evtag, &mut w);
            i = i + 1;
        }
        assert(events@.take(events.len() as int) =~= events@);
        (w, drain)
    }
}

} // verus!
