//! Bounded queues between the harts and the manager.

use crate::work::{DenialEvent, PendingWork, ReadyNotice, SleepNotice};
use thingbuf::recycling::DefaultRecycle;
use thingbuf::StaticThingBuf;
use vstd::prelude::*;

verus! {

/// The bounded queue of the `thingbuf` crate.
#[verifier::external_type_specification]
#[verifier::external_body]
#[verifier::reject_recursive_types(T)]
#[verifier::reject_recursive_types(R)]
pub struct ExStaticThingBuf<T, const CAP: usize, R>(StaticThingBuf<T, CAP, R>);

/// The policy by which `thingbuf` clears a slot for reuse.
#[verifier::external_type_specification]
#[verifier::external_body]
pub struct ExDefaultRecycle(DefaultRecycle);

/// Targeted wake-up event.
#[derive(Clone, Copy, Debug, PartialEq, Eq, Structural)]
pub enum WakeEvent {
    /// Filler of an empty slot; drained as a no-op.
    Nothing,
    /// Wake the network thread.
    Net,
    /// Wake every thread of a process.
    Pid(u16),
    /// Wake one thread.
    Tid(u32),
    /// Wake the thread parked on a process's key-event ring.
    InputTid(u32),
    /// Wake the compositor thread.
    Gpu,
    /// Wake the UART-drain thread.
    Serial,
}

impl Default for WakeEvent {
    fn default() -> (r: Self)
        ensures
            r == WakeEvent::Nothing,
    {
        WakeEvent::Nothing
    }
}

/// The events in a ring, oldest first.
pub uninterp spec fn wake_items(r: StaticThingBuf<WakeEvent, 128>) -> Seq<WakeEvent>;

/// `thingbuf::StaticThingBuf::new`: an empty queue.
#[verifier::external_body]
fn wake_ring_new() -> (r: StaticThingBuf<WakeEvent, 128>)
    ensures
        wake_items(r) == Seq::<WakeEvent>::empty(),
{
    StaticThingBuf::new()
}

/// `thingbuf::StaticThingBuf::push`, on a queue that nobody else uses
/// meanwhile: appends unless all 128 slots are taken, and then hands the
/// item back.
#[verifier::external_body]
fn wake_ring_push(r: &mut StaticThingBuf<WakeEvent, 128>, x: WakeEvent) -> (res: Result<(), WakeEvent>)
    ensures
        match res {
            Ok(()) => {
                &&& wake_items(*old(r)).len() < 128
                &&& wake_items(*final(r)) == wake_items(*old(r)).push(x)
            },
            Err(e) => {
                &&& wake_items(*old(r)).len() >= 128
                &&& e == x
                &&& wake_items(*final(r)) == wake_items(*old(r))
            },
        },
{
    r.push(x).map_err(|e| e.into_inner())
}

/// `thingbuf::StaticThingBuf::pop`, on a queue that nobody else uses
/// meanwhile: takes the oldest item.
#[verifier::external_body]
fn wake_ring_pop(r: &mut StaticThingBuf<WakeEvent, 128>) -> (res: Option<WakeEvent>)
    ensures
        match res {
            Some(x) => {
                &&& wake_items(*old(r)).len() > 0
                &&& x == wake_items(*old(r))[0]
                &&& wake_items(*final(r)) == wake_items(*old(r)).skip(1)
            },
            None => {
                &&& wake_items(*old(r)).len() == 0
                &&& wake_items(*final(r)) == wake_items(*old(r))
            },
        },
{
    r.pop()
}

/// `thingbuf::StaticThingBuf::len`: the number of items in the queue.
#[verifier::external_body]
fn wake_ring_len(r: &StaticThingBuf<WakeEvent, 128>) -> (n: usize)
    ensures
        n == wake_items(*r).len(),
{
    r.len()
}

/// Slots of the wake queue.
pub const WAKE_QUEUE_CAP: u64 = 128;

/// Wake events on their way to the manager, with the most it ever held and
/// the number of events it had no room for.
pub struct WakeQueue {
    ring: StaticThingBuf<WakeEvent, 128>,
    peak: u64,
    drops: u64,
}

/// What a wake queue holds.
#[verifier::ext_equal]
pub struct WakeView {
    pub items: Seq<WakeEvent>,
    pub peak: u64,
    pub drops: u64,
}

impl WakeView {
    /// The queue after a push: appended if there is room, else counted as
    /// dropped.
    pub open spec fn pushed(self, ev: WakeEvent) -> WakeView {
        if self.items.len() < 128 {
            WakeView {
                items: self.items.push(ev),
                peak: if self.items.len() + 1 > self.peak {
                    (self.items.len() + 1) as u64
                } else {
                    self.peak
                },
                ..self
            }
        } else {
            WakeView {
                drops: vstd::wrapping::u64_specs::wrapping_add(self.drops, 1),
                ..self
            }
        }
    }
}

impl View for WakeQueue {
    type V = WakeView;

    closed spec fn view(&self) -> WakeView {
        WakeView { items: wake_items(self.ring), peak: self.peak, drops: self.drops }
    }
}

impl WakeQueue {
    /// An empty queue.
    pub fn new() -> (r: Self)
        ensures
            r@ == (WakeView { items: Seq::empty(), peak: 0, drops: 0 }),
    {
        WakeQueue { ring: wake_ring_new(), peak: 0, drops: 0 }
    }

    /// Takes the oldest event.
    pub fn take(&mut self) -> (r: Option<WakeEvent>)
        ensures
            match r {
                Some(ev) => {
                    &&& old(self)@.items.len() > 0
                    &&& ev == old(self)@.items[0]
                    &&& final(self)@ == (WakeView { items: old(self)@.items.skip(1), ..old(self)@ })
                },
                None => old(self)@.items.len() == 0 && final(self)@ == old(self)@,
            },
    {
        wake_ring_pop(&mut self.ring)
    }

    pub fn peak(&self) -> (r: u64)
        ensures
            r == self@.peak,
    {
        self.peak
    }

    pub fn drops(&self) -> (r: u64)
        ensures
            r == self@.drops,
    {
        self.drops
    }
}

/// Queues a wake event and keeps the counters. A full queue hands the event
/// back and counts the drop.
pub fn wake_queue_push(q: &mut WakeQueue, ev: WakeEvent) -> (r: Result<(), WakeEvent>)
    ensures
        final(q)@ == old(q)@.pushed(ev),
        r == (if old(q)@.items.len() < 128 {
            Ok::<(), WakeEvent>(())
        } else {
            Err(ev)
        }),
{
    match wake_ring_push(&mut q.ring, ev) {
        Ok(()) => {
            let depth: u64 = wake_ring_len(&q.ring) as u64;
            if depth > q.peak {
                q.peak = depth;
            }
            Ok(())
        },
        Err(e) => {
            q.drops = q.drops.wrapping_add(1);
            Err(e)
        },
    }
}

/// The high-water mark never falls and never exceeds the queue's size, and
/// every push either shows up in the queue or in the drop counter.
pub proof fn law_wakes_are_queued_or_counted(q: WakeView, ev: WakeEvent)
    requires
        q.items.len() <= 128,
        q.peak <= 128,
        q.drops < u64::MAX,
    ensures
        q.pushed(ev).items.len() <= 128,
        q.peak <= q.pushed(ev).peak <= 128,
        q.pushed(ev).items.len() + q.pushed(ev).drops == q.items.len() + q.drops + 1,
{
}

/// The events in a ring, oldest first.
pub uninterp spec fn denial_items(r: StaticThingBuf<Option<DenialEvent>, 64>) -> Seq<Option<DenialEvent>>;

/// `thingbuf::StaticThingBuf::new`: an empty queue.
#[verifier::external_body]
fn denial_ring_new() -> (r: StaticThingBuf<Option<DenialEvent>, 64>)
    ensures
        denial_items(r) == Seq::<Option<DenialEvent>>::empty(),
{
    StaticThingBuf::new()
}

/// `thingbuf::StaticThingBuf::push`, on a queue that nobody else uses
/// meanwhile: appends unless all 64 slots are taken, and then hands the
/// item back.
#[verifier::external_body]
fn denial_ring_push(r: &mut StaticThingBuf<Option<DenialEvent>, 64>, x: Option<DenialEvent>) -> (res: Result<(), Option<DenialEvent>>)
    ensures
        match res {
            Ok(()) => {
                &&& denial_items(*old(r)).len() < 64
                &&& denial_items(*final(r)) == denial_items(*old(r)).push(x)
            },
            Err(e) => {
                &&& denial_items(*old(r)).len() >= 64
                &&& e == x
                &&& denial_items(*final(r)) == denial_items(*old(r))
            },
        },
{
    r.push(x).map_err(|e| e.into_inner())
}

/// `thingbuf::StaticThingBuf::pop`, on a queue that nobody else uses
/// meanwhile: takes the oldest item.
#[verifier::external_body]
fn denial_ring_pop(r: &mut StaticThingBuf<Option<DenialEvent>, 64>) -> (res: Option<Option<DenialEvent>>)
    ensures
        match res {
            Some(x) => {
                &&& denial_items(*old(r)).len() > 0
                &&& x == denial_items(*old(r))[0]
                &&& denial_items(*final(r)) == denial_items(*old(r)).skip(1)
            },
            None => {
                &&& denial_items(*old(r)).len() == 0
                &&& denial_items(*final(r)) == denial_items(*old(r))
            },
        },
{
    r.pop()
}

/// Denial events on their way to the manager, with the number lost.
pub struct DenialQueue {
    ring: StaticThingBuf<Option<DenialEvent>, 64>,
    dropped: u64,
}

/// What a denial queue holds.
#[verifier::ext_equal]
pub struct DenialView {
    pub items: Seq<Option<DenialEvent>>,
    pub dropped: u64,
}

impl View for DenialQueue {
    type V = DenialView;

    closed spec fn view(&self) -> DenialView {
        DenialView { items: denial_items(self.ring), dropped: self.dropped }
    }
}

impl DenialQueue {
    /// An empty queue.
    pub fn new() -> (r: Self)
        ensures
            r@ == (DenialView { items: Seq::empty(), dropped: 0 }),
    {
        DenialQueue { ring: denial_ring_new(), dropped: 0 }
    }

    /// Queues an event, or counts it as lost when the queue is full.
    pub fn push(&mut self, ev: DenialEvent)
        ensures
            final(self)@ == (if old(self)@.items.len() < 64 {
                DenialView { items: old(self)@.items.push(Some(ev)), ..old(self)@ }
            } else {
                DenialView {
                    dropped: vstd::wrapping::u64_specs::wrapping_add(old(self)@.dropped, 1),
                    ..old(self)@
                }
            }),
    {
        match denial_ring_push(&mut self.ring, Some(ev)) {
            Ok(()) => {},
            Err(_) => {
                self.dropped = self.dropped.wrapping_add(1);
            },
        }
    }

    /// Takes the oldest slot.
    pub fn take(&mut self) -> (r: Option<Option<DenialEvent>>)
        ensures
            match r {
                Some(x) => {
                    &&& old(self)@.items.len() > 0
                    &&& x == old(self)@.items[0]
                    &&& final(self)@ == (DenialView {
                        items: old(self)@.items.skip(1),
                        ..old(self)@
                    })
                },
                None => old(self)@.items.len() == 0 && final(self)@ == old(self)@,
            },
    {
        denial_ring_pop(&mut self.ring)
    }
}

/// The items in a ring, oldest first.
pub uninterp spec fn sleep_items(r: StaticThingBuf<SleepNotice, 64>) -> Seq<SleepNotice>;

/// `thingbuf::StaticThingBuf::new`: an empty queue.
#[verifier::external_body]
fn sleep_ring_new() -> (r: StaticThingBuf<SleepNotice, 64>)
    ensures
        sleep_items(r) == Seq::<SleepNotice>::empty(),
{
    StaticThingBuf::new()
}

/// `thingbuf::StaticThingBuf::push`, on a queue that nobody else uses
/// meanwhile: appends unless all 64 slots are taken, and then hands the
/// item back.
#[verifier::external_body]
fn sleep_ring_push(r: &mut StaticThingBuf<SleepNotice, 64>, x: SleepNotice) -> (res: Result<(), SleepNotice>)
    ensures
        match res {
            Ok(()) => {
                &&& sleep_items(*old(r)).len() < 64
                &&& sleep_items(*final(r)) == sleep_items(*old(r)).push(x)
            },
            Err(e) => {
                &&& sleep_items(*old(r)).len() >= 64
                &&& e == x
                &&& sleep_items(*final(r)) == sleep_items(*old(r))
            },
        },
{
    r.push(x).map_err(|e| e.into_inner())
}

/// `thingbuf::StaticThingBuf::pop`, on a queue that nobody else uses
/// meanwhile: takes the oldest item.
#[verifier::external_body]
fn sleep_ring_pop(r: &mut StaticThingBuf<SleepNotice, 64>) -> (res: Option<SleepNotice>)
    ensures
        match res {
            Some(x) => {
                &&& sleep_items(*old(r)).len() > 0
                &&& x == sleep_items(*old(r))[0]
                &&& sleep_items(*final(r)) == sleep_items(*old(r)).skip(1)
            },
            None => {
                &&& sleep_items(*old(r)).len() == 0
                &&& sleep_items(*final(r)) == sleep_items(*old(r))
            },
        },
{
    r.pop()
}

/// Park notices on their way to the sleep queue.
pub struct SleepInbox {
    ring: StaticThingBuf<SleepNotice, 64>,
}

impl View for SleepInbox {
    type V = Seq<SleepNotice>;

    closed spec fn view(&self) -> Seq<SleepNotice> {
        sleep_items(self.ring)
    }
}

impl SleepInbox {
    /// An empty queue.
    pub fn new() -> (r: Self)
        ensures
            r@ == Seq::<SleepNotice>::empty(),
    {
        SleepInbox { ring: sleep_ring_new() }
    }

    /// Queues an item; hands it back when the queue is full.
    pub fn push(&mut self, x: SleepNotice) -> (r: Result<(), SleepNotice>)
        ensures
            old(self)@.len() < 64 ==> r is Ok && final(self)@ == old(self)@.push(x),
            old(self)@.len() >= 64 ==> r == Err::<(), SleepNotice>(x) && final(self)@ == old(self)@,
    {
        sleep_ring_push(&mut self.ring, x)
    }

    /// Takes the oldest item.
    pub fn take(&mut self) -> (r: Option<SleepNotice>)
        ensures
            match r {
                Some(x) => {
                    &&& old(self)@.len() > 0
                    &&& x == old(self)@[0]
                    &&& final(self)@ == old(self)@.skip(1)
                },
                None => old(self)@.len() == 0 && final(self)@ == old(self)@,
            },
    {
        sleep_ring_pop(&mut self.ring)
    }
}

/// The items in a ring, oldest first.
pub uninterp spec fn ready_items(r: StaticThingBuf<ReadyNotice, 32>) -> Seq<ReadyNotice>;

/// `thingbuf::StaticThingBuf::new`: an empty queue.
#[verifier::external_body]
fn ready_ring_new() -> (r: StaticThingBuf<ReadyNotice, 32>)
    ensures
        ready_items(r) == Seq::<ReadyNotice>::empty(),
{
    StaticThingBuf::new()
}

/// `thingbuf::StaticThingBuf::push`, on a queue that nobody else uses
/// meanwhile: appends unless all 32 slots are taken, and then hands the
/// item back.
#[verifier::external_body]
fn ready_ring_push(r: &mut StaticThingBuf<ReadyNotice, 32>, x: ReadyNotice) -> (res: Result<(), ReadyNotice>)
    ensures
        match res {
            Ok(()) => {
                &&& ready_items(*old(r)).len() < 32
                &&& ready_items(*final(r)) == ready_items(*old(r)).push(x)
            },
            Err(e) => {
                &&& ready_items(*old(r)).len() >= 32
                &&& e == x
                &&& ready_items(*final(r)) == ready_items(*old(r))
            },
        },
{
    r.push(x).map_err(|e| e.into_inner())
}

/// `thingbuf::StaticThingBuf::pop`, on a queue that nobody else uses
/// meanwhile: takes the oldest item.
#[verifier::external_body]
fn ready_ring_pop(r: &mut StaticThingBuf<ReadyNotice, 32>) -> (res: Option<ReadyNotice>)
    ensures
        match res {
            Some(x) => {
                &&& ready_items(*old(r)).len() > 0
                &&& x == ready_items(*old(r))[0]
                &&& ready_items(*final(r)) == ready_items(*old(r)).skip(1)
            },
            None => {
                &&& ready_items(*old(r)).len() == 0
                &&& ready_items(*final(r)) == ready_items(*old(r))
            },
        },
{
    r.pop()
}

/// Ready notices of one hart.
pub struct ReadyInbox {
    ring: StaticThingBuf<ReadyNotice, 32>,
}

impl View for ReadyInbox {
    type V = Seq<ReadyNotice>;

    closed spec fn view(&self) -> Seq<ReadyNotice> {
        ready_items(self.ring)
    }
}

impl ReadyInbox {
    /// An empty queue.
    pub fn new() -> (r: Self)
        ensures
            r@ == Seq::<ReadyNotice>::empty(),
    {
        ReadyInbox { ring: ready_ring_new() }
    }

    /// Queues an item; hands it back when the queue is full.
    pub fn push(&mut self, x: ReadyNotice) -> (r: Result<(), ReadyNotice>)
        ensures
            old(self)@.len() < 32 ==> r is Ok && final(self)@ == old(self)@.push(x),
            old(self)@.len() >= 32 ==> r == Err::<(), ReadyNotice>(x) && final(self)@ == old(self)@,
    {
        ready_ring_push(&mut self.ring, x)
    }

    /// Takes the oldest item.
    pub fn take(&mut self) -> (r: Option<ReadyNotice>)
        ensures
            match r {
                Some(x) => {
                    &&& old(self)@.len() > 0
                    &&& x == old(self)@[0]
                    &&& final(self)@ == old(self)@.skip(1)
                },
                None => old(self)@.len() == 0 && final(self)@ == old(self)@,
            },
    {
        ready_ring_pop(&mut self.ring)
    }
}

/// The items in a ring, oldest first.
pub uninterp spec fn work_items(r: StaticThingBuf<PendingWork, 32>) -> Seq<PendingWork>;

/// `thingbuf::StaticThingBuf::new`: an empty queue.
#[verifier::external_body]
fn work_ring_new() -> (r: StaticThingBuf<PendingWork, 32>)
    ensures
        work_items(r) == Seq::<PendingWork>::empty(),
{
    StaticThingBuf::new()
}

/// `thingbuf::StaticThingBuf::push`, on a queue that nobody else uses
/// meanwhile: appends unless all 32 slots are taken, and then hands the
/// item back.
#[verifier::external_body]
fn work_ring_push(r: &mut StaticThingBuf<PendingWork, 32>, x: PendingWork) -> (res: Result<(), PendingWork>)
    ensures
        match res {
            Ok(()) => {
                &&& work_items(*old(r)).len() < 32
                &&& work_items(*final(r)) == work_items(*old(r)).push(x)
            },
            Err(e) => {
                &&& work_items(*old(r)).len() >= 32
                &&& e == x
                &&& work_items(*final(r)) == work_items(*old(r))
            },
        },
{
    r.push(x).map_err(|e| e.into_inner())
}

/// `thingbuf::StaticThingBuf::pop`, on a queue that nobody else uses
/// meanwhile: takes the oldest item.
#[verifier::external_body]
fn work_ring_pop(r: &mut StaticThingBuf<PendingWork, 32>) -> (res: Option<PendingWork>)
    ensures
        match res {
            Some(x) => {
                &&& work_items(*old(r)).len() > 0
                &&& x == work_items(*old(r))[0]
                &&& work_items(*final(r)) == work_items(*old(r)).skip(1)
            },
            None => {
                &&& work_items(*old(r)).len() == 0
                &&& work_items(*final(r)) == work_items(*old(r))
            },
        },
{
    r.pop()
}

/// Requests on their way to the manager.
pub struct WorkQueue {
    ring: StaticThingBuf<PendingWork, 32>,
}

impl View for WorkQueue {
    type V = Seq<PendingWork>;

    closed spec fn view(&self) -> Seq<PendingWork> {
        work_items(self.ring)
    }
}

impl WorkQueue {
    /// An empty queue.
    pub fn new() -> (r: Self)
        ensures
            r@ == Seq::<PendingWork>::empty(),
    {
        WorkQueue { ring: work_ring_new() }
    }

    /// Queues an item; hands it back when the queue is full.
    pub fn push(&mut self, x: PendingWork) -> (r: Result<(), PendingWork>)
        ensures
            old(self)@.len() < 32 ==> r is Ok && final(self)@ == old(self)@.push(x),
            old(self)@.len() >= 32 ==> r == Err::<(), PendingWork>(x) && final(self)@ == old(self)@,
    {
        work_ring_push(&mut self.ring, x)
    }

    /// Takes the oldest item.
    pub fn take(&mut self) -> (r: Option<PendingWork>)
        ensures
            match r {
                Some(x) => {
                    &&& old(self)@.len() > 0
                    &&& x == old(self)@[0]
                    &&& final(self)@ == old(self)@.skip(1)
                },
                None => old(self)@.len() == 0 && final(self)@ == old(self)@,
            },
    {
        work_ring_pop(&mut self.ring)
    }
}

/// A wake-up is queued behind all others; a queue without room keeps what it
/// has and counts the loss.
pub proof fn law_wakes_keep_their_order(q: WakeView, ev: WakeEvent)
    requires
        q.drops < u64::MAX,
    ensures
        q.items.len() < 128 ==> q.pushed(ev).items.drop_last() == q.items && q.pushed(
            ev,
        ).items.last() == ev && q.pushed(ev).drops == q.drops && q.pushed(ev).peak
            >= q.pushed(ev).items.len(),
        q.items.len() >= 128 ==> q.pushed(ev).items == q.items && q.pushed(ev).drops == q.drops + 1
            && q.pushed(ev).peak == q.peak,
{
    if q.items.len() < 128 {
        assert(q.pushed(ev).items.drop_last() =~= q.items);
    }
}

/// The peak is the longest that the queue has been.
pub proof fn law_the_peak_is_the_longest_queue(q: WakeView, ev: WakeEvent)
    requires
        q.items.len() < 128,
    ensures
        q.items.len() + 1 > q.peak ==> q.pushed(ev).peak == q.items.len() + 1,
        q.items.len() + 1 <= q.peak ==> q.pushed(ev).peak == q.peak,
{
}

} // verus!
