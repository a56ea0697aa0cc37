//! Block-keyed page cache.
//!
//! A cached page is `Loading` while its DMA is in flight and `Ready` once the
//! bytes have landed. Only `Ready` pages can be evicted, least recently used
//! first; a page that is still loading never loses its frame.

use std::collections::{BTreeMap, VecDeque};
use vstd::prelude::*;

verus! {

broadcast use {vstd::laws_cmp::group_laws_cmp, vstd::std_specs::btree::group_btree_axioms};

/// Identity of a cached page: device and first logical block.
#[derive(Clone, Copy, Debug, PartialEq, Eq, PartialOrd, Ord, Structural)]
pub struct CacheKey {
    pub dev: u8,
    pub lba: u64,
}

const SLOT_OCCUPIED: u64 = 0x8000_0000_0000_0000;

const SLOT_DEV_MASK: u64 = 0xFF;

const SLOT_LBA_MASK: u64 = 0x7FFF_FFFF_FFFF_FF00;

/// The word that stands for `key` in a DMA descriptor: the top bit marks it
/// occupied, the low byte is the device, the 55 bits between hold the block.
pub open spec fn packed(key: CacheKey) -> u64 {
    0x8000_0000_0000_0000u64 | ((key.lba << 8u64) & 0x7FFF_FFFF_FFFF_FF00u64) | (key.dev as u64)
}

/// What a descriptor word stands for; a word without the top bit is empty.
pub open spec fn unpacked(word: u64) -> Option<CacheKey> {
    if word & 0x8000_0000_0000_0000u64 == 0 {
        None
    } else {
        Some(
            CacheKey {
                dev: (word & 0xFFu64) as u8,
                lba: (word & 0x7FFF_FFFF_FFFF_FF00u64) >> 8u64,
            },
        )
    }
}

/// Packs a key into one word.
pub fn pack(key: CacheKey) -> (r: u64)
    ensures
        r == packed(key),
{
    SLOT_OCCUPIED | ((key.lba << 8u64) & SLOT_LBA_MASK) | (key.dev as u64)
}

/// Unpacks a word made by [`pack`].
pub fn unpack(word: u64) -> (r: Option<CacheKey>)
    ensures
        r == unpacked(word),
{
    if word & SLOT_OCCUPIED == 0 {
        return None;
    }
    Some(
        CacheKey {
            dev: (word & SLOT_DEV_MASK) as u8,
            lba: (word & SLOT_LBA_MASK) >> 8u64,
        },
    )
}

/// Unpacking gives back every key whose block number fits in 55 bits, and no
/// packed word is empty.
pub proof fn law_unpack_undoes_pack(key: CacheKey)
    requires
        key.lba < 0x80_0000_0000_0000,
    ensures
        unpacked(packed(key)) == Some(key),
{
    let lba = key.lba;
    let dev = key.dev;
    let w = packed(key);
    assert(w & 0x8000_0000_0000_0000u64 != 0 && (w & 0xFFu64) as u8 == dev && (w
        & 0x7FFF_FFFF_FFFF_FF00u64) >> 8u64 == lba) by (bit_vector)
        requires
            w == 0x8000_0000_0000_0000u64 | ((lba << 8u64) & 0x7FFF_FFFF_FFFF_FF00u64) | (
            dev as u64),
            lba < 0x80_0000_0000_0000u64,
    ;
}

/// A page frame shared between the kernel and a device, by physical address.
#[derive(Clone, Copy, Debug, PartialEq, Eq, Structural)]
pub struct SharedFrame {
    pub pa: u64,
}

/// Who is waiting for a loading page and which bytes of it go where.
#[derive(Clone, Copy, Debug, PartialEq, Eq, Structural)]
pub enum Waiter {
    User { tid: u32, pid: u16, intra: u32, user_page_pa: u64, user_page_off: u32, len: u32 },
    Kernel { tid: u32, intra: u32, dst_kva: u64, len: u32 },
}

/// State of one cached page.
pub enum SlotState {
    Loading { frame: SharedFrame, valid_bytes: u32, waiters: Vec<Waiter> },
    Ready { frame: SharedFrame, valid_bytes: u32 },
}

/// What a slot holds. `waiters` is `None` once the page is ready.
#[verifier::ext_equal]
pub struct Slot {
    pub frame: SharedFrame,
    pub valid_bytes: u32,
    pub waiters: Option<Seq<Waiter>>,
}

impl View for SlotState {
    type V = Slot;

    open spec fn view(&self) -> Slot {
        match *self {
            SlotState::Loading { frame, valid_bytes, waiters } => Slot {
                frame,
                valid_bytes,
                waiters: Some(waiters@),
            },
            SlotState::Ready { frame, valid_bytes } => Slot { frame, valid_bytes, waiters: None },
        }
    }
}

impl SlotState {
    /// The frame behind the page.
    pub fn frame(&self) -> (r: &SharedFrame)
        ensures
            *r == self@.frame,
    {
        match self {
            SlotState::Loading { frame, .. } => frame,
            SlotState::Ready { frame, .. } => frame,
        }
    }

    /// Whether the DMA is still in flight.
    pub fn is_loading(&self) -> (r: bool)
        ensures
            r == self@.waiters is Some,
    {
        matches!(self, SlotState::Loading { .. })
    }
}

/// Counters of the cache. They wrap.
#[derive(Clone, Copy, Debug, PartialEq, Eq, Structural)]
pub struct PageCacheStats {
    pub hits: u64,
    pub misses: u64,
    pub coalesced: u64,
    pub evictions: u64,
    pub pool_exhausted: u64,
    pub io_errors: u64,
    pub inflight_pages: u64,
    pub ready_pages: u64,
}

/// Why a cache operation was refused.
#[derive(Clone, Copy, Debug, PartialEq, Eq, Structural)]
pub enum CacheErr {
    NotFound,
    WrongState,
    PoolExhausted,
    AlreadyPresent,
}

/// The cache. `lru` lists the ready pages, most recently used first.
pub struct PageCache {
    entries: BTreeMap<(u8, u64), SlotState>,
    lru: VecDeque<CacheKey>,
    pool: Vec<SharedFrame>,
    capacity: usize,
    stats: PageCacheStats,
}

/// What a cache holds: its pages, the order in which ready pages would be
/// evicted (last first), and the frames that hold no page.
#[verifier::ext_equal]
pub struct CacheModel {
    pub slots: Map<CacheKey, Slot>,
    pub lru: Seq<CacheKey>,
    pub pool: Seq<SharedFrame>,
    pub stats: PageCacheStats,
}

pub open spec fn bump(n: u64) -> u64 {
    vstd::wrapping::u64_specs::wrapping_add(n, 1)
}

impl CacheModel {
    pub open spec fn is_ready(self, key: CacheKey) -> bool {
        self.slots.contains_key(key) && self.slots[key].waiters is None
    }

    pub open spec fn is_loading(self, key: CacheKey) -> bool {
        self.slots.contains_key(key) && self.slots[key].waiters is Some
    }

    /// Ready pages are exactly those on the recency list, each once.
    pub open spec fn wf(self) -> bool {
        &&& self.slots.dom().finite()
        &&& self.lru.no_duplicates()
        &&& forall|k: CacheKey| #[trigger] self.lru.contains(k) <==> self.is_ready(k)
    }

    /// No frame backs two pages, and no frame that backs a page is in the pool.
    pub open spec fn frames_distinct(self) -> bool {
        &&& self.pool.no_duplicates()
        &&& forall|a: CacheKey, b: CacheKey|
            #![trigger self.slots[a], self.slots[b]]
            self.slots.contains_key(a) && self.slots.contains_key(b) && self.slots[a].frame
                == self.slots[b].frame ==> a == b
        &&& forall|a: CacheKey|
            #![trigger self.slots[a]]
            self.slots.contains_key(a) ==> !self.pool.contains(self.slots[a].frame)
    }

    /// Frames in use and in the pool together.
    pub open spec fn frame_count(self) -> nat {
        self.slots.dom().len() + self.pool.len()
    }

    pub open spec fn touched(self, key: CacheKey) -> CacheModel {
        if self.is_ready(key) {
            CacheModel { lru: seq![key] + self.lru.remove_value(key), ..self }
        } else {
            self
        }
    }

    pub open spec fn hit(self) -> CacheModel {
        CacheModel {
            stats: PageCacheStats { hits: bump(self.stats.hits), ..self.stats },
            ..self
        }
    }

    pub open spec fn registered(self, key: CacheKey, w: Waiter) -> CacheModel {
        if self.is_loading(key) {
            let old_slot = self.slots[key];
            CacheModel {
                slots: self.slots.insert(
                    key,
                    Slot { waiters: Some(old_slot.waiters->0.push(w)), ..old_slot },
                ),
                stats: PageCacheStats { coalesced: bump(self.stats.coalesced), ..self.stats },
                ..self
            }
        } else {
            self
        }
    }

    /// The frame that a new page gets: the last of the pool, or else that of
    /// the least recently used ready page.
    pub open spec fn next_frame(self) -> Option<SharedFrame> {
        if self.pool.len() > 0 {
            Some(self.pool.last())
        } else if self.lru.len() > 0 {
            Some(self.slots[self.lru.last()].frame)
        } else {
            None
        }
    }

    /// The cache after that frame was taken.
    pub open spec fn frame_taken(self) -> CacheModel {
        if self.pool.len() > 0 {
            CacheModel { pool: self.pool.drop_last(), ..self }
        } else if self.lru.len() > 0 {
            CacheModel {
                slots: self.slots.remove(self.lru.last()),
                lru: self.lru.drop_last(),
                stats: PageCacheStats { evictions: bump(self.stats.evictions), ..self.stats },
                ..self
            }
        } else {
            CacheModel {
                stats: PageCacheStats {
                    pool_exhausted: bump(self.stats.pool_exhausted),
                    ..self.stats
                },
                ..self
            }
        }
    }

    pub open spec fn load_begun(self, key: CacheKey, valid: u32, w: Waiter) -> CacheModel {
        if self.slots.contains_key(key) {
            self
        } else if self.next_frame() is None {
            self.frame_taken()
        } else {
            let m = self.frame_taken();
            CacheModel {
                slots: m.slots.insert(
                    key,
                    Slot {
                        frame: self.next_frame()->0,
                        valid_bytes: valid,
                        waiters: Some(seq![w]),
                    },
                ),
                stats: PageCacheStats { misses: bump(m.stats.misses), ..m.stats },
                ..m
            }
        }
    }

    pub open spec fn completed(self, key: CacheKey, status: u8) -> CacheModel {
        if !self.is_loading(key) {
            self
        } else if status == 0 {
            CacheModel {
                slots: self.slots.insert(key, Slot { waiters: None, ..self.slots[key] }),
                lru: seq![key] + self.lru,
                ..self
            }
        } else {
            CacheModel {
                slots: self.slots.remove(key),
                pool: self.pool.push(self.slots[key].frame),
                stats: PageCacheStats { io_errors: bump(self.stats.io_errors), ..self.stats },
                ..self
            }
        }
    }
}

impl View for PageCache {
    type V = CacheModel;

    closed spec fn view(&self) -> CacheModel {
        CacheModel {
            slots: Map::new(
                |k: CacheKey| self.entries@.contains_key((k.dev, k.lba)),
                |k: CacheKey| self.entries@[(k.dev, k.lba)]@,
            ),
            lru: self.lru@,
            pool: self.pool@,
            stats: self.stats,
        }
    }
}

impl PageCache {
    /// The number of frames the cache was made with.
    pub closed spec fn spec_capacity(self) -> usize {
        self.capacity
    }

    /// The recency list holds the ready pages and no frame is lost.
    pub open spec fn wf(self) -> bool {
        &&& self@.wf()
        &&& self@.frame_count() == self.spec_capacity()
    }
}


impl CacheModel {
    pub open spec fn ready_keys(self) -> Set<CacheKey> {
        self.slots.dom().filter(|k: CacheKey| self.is_ready(k))
    }

    pub open spec fn loading_keys(self) -> Set<CacheKey> {
        self.slots.dom().filter(|k: CacheKey| self.is_loading(k))
    }
}

/// Every operation keeps the recency list equal to the set of ready pages.
pub proof fn law_recency_list_is_the_ready_set(
    m: CacheModel,
    key: CacheKey,
    valid: u32,
    w: Waiter,
    status: u8,
)
    requires
        m.wf(),
    ensures
        m.touched(key).wf(),
        m.hit().wf(),
        m.registered(key, w).wf(),
        m.load_begun(key, valid, w).wf(),
        m.completed(key, status).wf(),
{
    lemma_touched_wf(m, key);
    lemma_completed_wf(m, key, status);
    lemma_load_begun_wf(m, key, valid, w);
    let r = m.registered(key, w);
    assert forall|k: CacheKey| #[trigger] r.lru.contains(k) <==> r.is_ready(k) by {
        assert(m.lru.contains(k) <==> m.is_ready(k));
    }
    let h = m.hit();
    assert forall|k: CacheKey| #[trigger] h.lru.contains(k) <==> h.is_ready(k) by {
        assert(m.lru.contains(k) <==> m.is_ready(k));
    }
}

proof fn lemma_touched_wf(m: CacheModel, key: CacheKey)
    requires
        m.wf(),
    ensures
        m.touched(key).wf(),
        m.touched(key).slots == m.slots,
{
    if m.is_ready(key) {
        let i = m.lru.index_of_first(key)->0;
        m.lru.index_of_first_ensures(key);
        assert(m.lru.contains(key));
        let rest = m.lru.remove_value(key);
        assert(rest == m.lru.remove(i));
        let t = m.touched(key);
        assert forall|a: int, b: int|
            0 <= a < t.lru.len() && 0 <= b < t.lru.len() && a != b implies t.lru[a] != t.lru[b] by {
            assert(forall|c: int| 0 <= c < rest.len() ==> rest[c] == m.lru[if c < i { c } else { c + 1 }]);
        }
        assert forall|k: CacheKey| #[trigger] t.lru.contains(k) <==> t.is_ready(k) by {
            assert(m.lru.contains(k) <==> m.is_ready(k));
            if t.is_ready(k) {
                if k == key {
                    assert(t.lru[0] == k);
                } else {
                    let c = choose|c: int| 0 <= c < m.lru.len() && m.lru[c] == k;
                    if c < i {
                        assert(t.lru[c + 1] == k);
                    } else {
                        assert(t.lru[c] == k);
                    }
                }
            }
            if t.lru.contains(k) {
                let c = choose|c: int| 0 <= c < t.lru.len() && t.lru[c] == k;
                if c > 0 {
                    let d = c - 1;
                    assert(m.lru[if d < i { d } else { d + 1 }] == k);
                    assert(m.lru.contains(k));
                }
            }
        }
    }
}

proof fn lemma_completed_wf(m: CacheModel, key: CacheKey, status: u8)
    requires
        m.wf(),
    ensures
        m.completed(key, status).wf(),
{
    let t = m.completed(key, status);
    if m.is_loading(key) {
        assert(!m.lru.contains(key)) by {
            assert(m.lru.contains(key) <==> m.is_ready(key));
        }
        assert forall|k: CacheKey| #[trigger] t.lru.contains(k) <==> t.is_ready(k) by {
            assert(m.lru.contains(k) <==> m.is_ready(k));
            if status == 0 {
                if t.lru.contains(k) {
                    let c = choose|c: int| 0 <= c < t.lru.len() && t.lru[c] == k;
                    if c > 0 {
                        assert(m.lru[c - 1] == k);
                    }
                }
                if k == key {
                    assert(t.lru[0] == k);
                } else if m.lru.contains(k) {
                    let c = choose|c: int| 0 <= c < m.lru.len() && m.lru[c] == k;
                    assert(t.lru[c + 1] == k);
                }
            }
        }
        assert(t.lru.no_duplicates()) by {
            if status == 0 {
                assert forall|a: int, b: int|
                    0 <= a < t.lru.len() && 0 <= b < t.lru.len() && a != b implies t.lru[a]
                    != t.lru[b] by {
                    if a > 0 {
                        assert(t.lru[a] == m.lru[a - 1]);
                        assert(m.lru.contains(m.lru[a - 1]));
                    }
                    if b > 0 {
                        assert(t.lru[b] == m.lru[b - 1]);
                        assert(m.lru.contains(m.lru[b - 1]));
                    }
                }
            }
        }
    }
}

proof fn lemma_load_begun_wf(m: CacheModel, key: CacheKey, valid: u32, w: Waiter)
    requires
        m.wf(),
    ensures
        m.load_begun(key, valid, w).wf(),
{
    let t = m.load_begun(key, valid, w);
    if !m.slots.contains_key(key) {
        assert(!m.lru.contains(key)) by {
            assert(m.lru.contains(key) <==> m.is_ready(key));
        }
        assert forall|k: CacheKey| #[trigger] t.lru.contains(k) <==> t.is_ready(k) by {
            assert(m.lru.contains(k) <==> m.is_ready(k));
            if m.pool.len() == 0 && m.lru.len() > 0 {
                let v = m.lru.last();
                assert(m.lru.contains(v));
                if t.lru.contains(k) {
                    let c = choose|c: int| 0 <= c < t.lru.len() && t.lru[c] == k;
                    assert(m.lru[c] == k);
                }
                if m.lru.contains(k) && k != v {
                    let c = choose|c: int| 0 <= c < m.lru.len() && m.lru[c] == k;
                    assert(t.lru[c] == k);
                }
            }
        }
    }
}

/// No frame is lost or made: the frames that back pages and those in the pool
/// are as many after any operation as before it.
pub proof fn law_frames_are_conserved(
    m: CacheModel,
    key: CacheKey,
    valid: u32,
    w: Waiter,
    status: u8,
)
    requires
        m.wf(),
    ensures
        m.touched(key).frame_count() == m.frame_count(),
        m.hit().frame_count() == m.frame_count(),
        m.registered(key, w).frame_count() == m.frame_count(),
        m.load_begun(key, valid, w).frame_count() == m.frame_count(),
        m.completed(key, status).frame_count() == m.frame_count(),
{
    lemma_touched_wf(m, key);
    if m.is_loading(key) {
        let r = m.registered(key, w);
        assert(r.slots.dom() =~= m.slots.dom());
        let c = m.completed(key, status);
        if status == 0 {
            assert(c.slots.dom() =~= m.slots.dom());
        } else {
            assert(c.slots.dom() =~= m.slots.dom().remove(key));
        }
    }
    if !m.slots.contains_key(key) && m.next_frame() is Some {
        let t = m.load_begun(key, valid, w);
        if m.pool.len() > 0 {
            assert(t.slots.dom() =~= m.slots.dom().insert(key));
        } else {
            let v = m.lru.last();
            assert(m.lru.contains(v));
            assert(m.is_ready(v));
            assert(t.slots.dom() =~= m.slots.dom().remove(v).insert(key));
        }
    }
}

/// No operation makes two pages share a frame.
pub proof fn law_frames_stay_distinct(
    m: CacheModel,
    key: CacheKey,
    valid: u32,
    w: Waiter,
    status: u8,
)
    requires
        m.wf(),
        m.frames_distinct(),
    ensures
        m.touched(key).frames_distinct(),
        m.hit().frames_distinct(),
        m.registered(key, w).frames_distinct(),
        m.load_begun(key, valid, w).frames_distinct(),
        m.completed(key, status).frames_distinct(),
{
    let c = m.completed(key, status);
    if m.is_loading(key) && status != 0 {
        let f = m.slots[key].frame;
        assert(!m.pool.contains(f));
        assert(c.pool.no_duplicates());
        assert forall|a: CacheKey| #![trigger c.slots[a]] c.slots.contains_key(a) implies !c.pool.contains(
            c.slots[a].frame,
        ) by {
            let g = c.slots[a].frame;
            assert(m.slots[a].frame == g);
            assert(m.slots[key].frame == f);
            if c.pool.contains(g) {
                let i = choose|i: int| 0 <= i < c.pool.len() && c.pool[i] == g;
                if i < m.pool.len() {
                    assert(m.pool[i] == g);
                }
            }
        }
    }
    let t = m.load_begun(key, valid, w);
    if !m.slots.contains_key(key) && m.next_frame() is Some {
        if m.pool.len() > 0 {
            let f = m.pool.last();
            assert(m.pool.contains(f));
            assert forall|a: CacheKey| #![trigger t.slots[a]] t.slots.contains_key(a) implies !t.pool.contains(
                t.slots[a].frame,
            ) by {
                let g = t.slots[a].frame;
                if t.pool.contains(g) {
                    let i = choose|i: int| 0 <= i < t.pool.len() && t.pool[i] == g;
                    assert(m.pool[i] == g);
                    assert(m.pool.contains(g));
                }
            }
            assert forall|a: CacheKey, b: CacheKey|
                #![trigger t.slots[a], t.slots[b]]
                t.slots.contains_key(a) && t.slots.contains_key(b) && t.slots[a].frame
                    == t.slots[b].frame implies a == b by {
                if a != key {
                    assert(m.slots[a].frame == t.slots[a].frame);
                }
                if b != key {
                    assert(m.slots[b].frame == t.slots[b].frame);
                }
            }
        } else {
            let v = m.lru.last();
            assert(m.lru.contains(v));
            assert(m.is_ready(v));
            assert forall|a: CacheKey, b: CacheKey|
                #![trigger t.slots[a], t.slots[b]]
                t.slots.contains_key(a) && t.slots.contains_key(b) && t.slots[a].frame
                    == t.slots[b].frame implies a == b by {
                assert(m.slots[v].frame == t.slots[key].frame);
                if a != key {
                    assert(m.slots[a].frame == t.slots[a].frame);
                }
                if b != key {
                    assert(m.slots[b].frame == t.slots[b].frame);
                }
            }
        }
    }
}

/// A page that is loading keeps its frame: starting another load never evicts
/// it.
pub proof fn law_loading_pages_are_not_evicted(
    m: CacheModel,
    key: CacheKey,
    valid: u32,
    w: Waiter,
    other: CacheKey,
)
    requires
        m.wf(),
        m.is_loading(other),
    ensures
        m.load_begun(key, valid, w).slots.contains_key(other),
        m.load_begun(key, valid, w).slots[other] == m.slots[other],
{
    if m.lru.len() > 0 {
        assert(m.lru.contains(m.lru.last()));
        assert(m.is_ready(m.lru.last()));
    }
}

/// A load that is begun and then completed hands its waiter back, and on
/// success the page is ready and the most recently used.
pub proof fn law_load_then_complete(m: CacheModel, key: CacheKey, valid: u32, w: Waiter)
    requires
        m.wf(),
        !m.slots.contains_key(key),
        m.next_frame() is Some,
    ensures
        m.load_begun(key, valid, w).slots[key].waiters == Some(seq![w]),
        m.load_begun(key, valid, w).completed(key, 0).is_ready(key),
        m.load_begun(key, valid, w).completed(key, 0).slots[key].valid_bytes == valid,
        m.load_begun(key, valid, w).completed(key, 0).lru[0] == key,
        !m.load_begun(key, valid, w).completed(key, 1).slots.contains_key(key),
{
}

impl CacheModel {
    /// Waiters that join a load, one after another.
    pub open spec fn all_registered(self, key: CacheKey, ws: Seq<Waiter>) -> CacheModel
        decreases ws.len(),
    {
        if ws.len() == 0 {
            self
        } else {
            self.all_registered(key, ws.drop_last()).registered(key, ws.last())
        }
    }
}

/// All misses on a page share one load: whoever asks while the page is being
/// loaded joins the list of waiters in order, a second load of it takes nothing
/// from the cache, and the page keeps the frame that the first one got.
pub proof fn law_misses_on_a_page_share_its_load(
    m: CacheModel,
    key: CacheKey,
    valid: u32,
    w: Waiter,
    ws: Seq<Waiter>,
    other_valid: u32,
    other: Waiter,
)
    requires
        !m.slots.contains_key(key),
        m.next_frame() is Some,
    ensures
        ({
            let t = m.load_begun(key, valid, w).all_registered(key, ws);
            &&& t.is_loading(key)
            &&& t.slots[key] == (Slot {
                frame: m.next_frame()->0,
                valid_bytes: valid,
                waiters: Some(seq![w] + ws),
            })
            &&& t.load_begun(key, other_valid, other) == t
            &&& t.pool == m.load_begun(key, valid, w).pool
            &&& t.stats.misses == bump(m.stats.misses)
        }),
    decreases ws.len(),
{
    if ws.len() == 0 {
        assert(seq![w] + ws =~= seq![w]);
    } else {
        law_misses_on_a_page_share_its_load(
            m,
            key,
            valid,
            w,
            ws.drop_last(),
            other_valid,
            other,
        );
        assert((seq![w] + ws.drop_last()).push(ws.last()) =~= seq![w] + ws);
    }
}

/// A page that was just used is the last to be evicted: with another ready page
/// in the cache, a new load takes the frame of one of those.
pub proof fn law_a_used_page_is_evicted_last(
    m: CacheModel,
    key: CacheKey,
    next: CacheKey,
    valid: u32,
    w: Waiter,
)
    requires
        m.wf(),
        m.is_ready(key),
        m.lru.len() > 1,
        next != key,
    ensures
        m.touched(key).load_begun(next, valid, w).is_ready(key),
{
    lemma_touched_wf(m, key);
    let t = m.touched(key);
    assert(m.lru.contains(key));
    let i = m.lru.index_of_first(key)->0;
    m.lru.index_of_first_ensures(key);
    assert(m.lru.remove_value(key) == m.lru.remove(i));
    assert(t.lru.len() == m.lru.len());
    assert(t.lru[0] == key);
    assert(t.lru.last() != key);
}

/// Counters of a new cache.
pub open spec fn no_stats() -> PageCacheStats {
    PageCacheStats {
        hits: 0,
        misses: 0,
        coalesced: 0,
        evictions: 0,
        pool_exhausted: 0,
        io_errors: 0,
        inflight_pages: 0,
        ready_pages: 0,
    }
}

/// A cache that holds no page yet.
pub open spec fn empty_cache(pool: Seq<SharedFrame>) -> CacheModel {
    CacheModel { slots: Map::empty(), lru: Seq::empty(), pool, stats: no_stats() }
}

impl PageCache {
    /// Builds a cache from the page frames that the allocator granted, one
    /// after another, up to `capacity` of them. `None` if it granted fewer.
    pub fn with_capacity(granted: &Vec<SharedFrame>, capacity: usize) -> (r: Option<Self>)
        ensures
            r is Some <==> granted@.len() >= capacity,
            r matches Some(c) ==> {
                &&& c.wf()
                &&& c.spec_capacity() == capacity
                &&& c@ == empty_cache(granted@.take(capacity as int))
            },
    {
        let mut pool: Vec<SharedFrame> = Vec::with_capacity(capacity);
        let mut i: usize = 0;
        while i < capacity
            invariant
                i <= capacity,
                i <= granted@.len(),
                pool@ == granted@.take(i as int),
            decreases capacity - i,
        {
            if i >= granted.len() {
                return None;
            }
            pool.push(granted[i]);
            proof {
                assert(granted@.take(i + 1) =~= granted@.take(i as int).push(granted@[i as int]));
            }
            i = i + 1;
        }
        let c = PageCache {
            entries: BTreeMap::new(),
            lru: VecDeque::with_capacity(capacity),
            pool,
            capacity,
            stats: PageCacheStats {
                hits: 0,
                misses: 0,
                coalesced: 0,
                evictions: 0,
                pool_exhausted: 0,
                io_errors: 0,
                inflight_pages: 0,
                ready_pages: 0,
            },
        };
        proof {
            assert(c@.slots =~= Map::<CacheKey, Slot>::empty());
            assert(c@.slots.dom() =~= Set::<CacheKey>::empty());
        }
        Some(c)
    }

    /// The number of frames the cache was made with.
    pub fn capacity(&self) -> (r: usize)
        ensures
            r == self.spec_capacity(),
    {
        self.capacity
    }

    /// The counters, with the pages in flight and the ready pages counted now.
    pub fn stats(&self) -> (r: PageCacheStats)
        requires
            self.wf(),
        ensures
            r == (PageCacheStats {
                inflight_pages: self@.loading_keys().len() as u64,
                ready_pages: self@.ready_keys().len() as u64,
                ..self@.stats
            }),
            self@.loading_keys().len() + self@.ready_keys().len() == self@.slots.dom().len(),
    {
        let total: usize = self.entries.len();
        let ready: usize = self.lru.len();
        proof {
            let m = self@;
            assert(m.lru.to_set() =~= m.ready_keys()) by {
                assert forall|k: CacheKey| m.lru.to_set().contains(k) <==> m.ready_keys().contains(k) by {
                    assert(m.lru.contains(k) <==> m.is_ready(k));
                }
            }
            m.lru.unique_seq_to_set();
            assert(m.loading_keys() =~= m.slots.dom().difference(m.ready_keys()));
            assert(m.ready_keys().subset_of(m.slots.dom()));
            vstd::set_lib::lemma_set_disjoint_lens(m.loading_keys(), m.ready_keys());
            assert(m.loading_keys() + m.ready_keys() =~= m.slots.dom());
            self.lemma_entry_count();
        }
        let mut s = self.stats;
        s.inflight_pages = (total - ready) as u64;
        s.ready_pages = ready as u64;
        s
    }

    proof fn lemma_entry_count(&self)
        ensures
            self@.slots.dom().finite(),
            self@.slots.dom().len() == self.entries@.dom().len(),
    {
        let f = |p: (u8, u64)| CacheKey { dev: p.0, lba: p.1 };
        let d = self.entries@.dom();
        assert(d.finite());
        assert(self@.slots.dom() =~= d.map(f)) by {
            assert forall|k: CacheKey| self@.slots.dom().contains(k) implies d.map(f).contains(k) by {
                assert(f((k.dev, k.lba)) == k);
                assert(d.contains((k.dev, k.lba)));
            }
        }
        assert(vstd::relations::injective(f));
        vstd::set_lib::lemma_map_size(d, d.map(f), f);
    }

    /// The state of a page, if the cache has it.
    pub fn lookup(&self, key: CacheKey) -> (r: Option<&SlotState>)
        ensures
            r is Some <==> self@.slots.contains_key(key),
            r matches Some(s) ==> s@ == self@.slots[key],
    {
        self.entries.get(&(key.dev, key.lba))
    }

    /// Makes a ready page the most recently used. Does nothing to a page that
    /// is loading or absent.
    pub fn touch_lru(&mut self, key: CacheKey)
        requires
            old(self).wf(),
        ensures
            final(self).wf(),
            final(self)@ == old(self)@.touched(key),
            final(self).spec_capacity() == old(self).spec_capacity(),
    {
        let ready: bool = match self.entries.get(&(key.dev, key.lba)) {
            Some(SlotState::Ready { .. }) => true,
            _ => false,
        };
        if !ready {
            return ;
        }
        proof {
            assert(self@.is_ready(key));
            assert(self@.lru.contains(key));
        }
        let mut i: usize = 0;
        while self.lru[i] != key
            invariant
                *self == *old(self),
                i < self.lru.len(),
                self.lru.len() == self.lru@.len(),
                self.lru@.contains(key),
                forall|j: int| 0 <= j < i ==> self.lru@[j] != key,
            decreases self.lru@.len() - i,
        {
            proof {
                let c = choose|c: int| 0 <= c < self.lru@.len() && self.lru@[c] == key;
                assert(i < c);
            }
            i = i + 1;
        }
        proof {
            lemma_touched_wf(self@, key);
            self@.lru.index_of_first_ensures(key);
            let f = self@.lru.index_of_first(key)->0;
            assert(f == i);
        }
        let _ = self.lru.remove(i);
        self.lru.push_front(key);
        proof {
            assert(self@.slots =~= old(self)@.slots);
            assert(self@ =~= old(self)@.touched(key));
        }
    }

    /// Counts a lookup that found its page ready.
    pub fn record_hit(&mut self)
        requires
            old(self).wf(),
        ensures
            final(self).wf(),
            final(self)@ == old(self)@.hit(),
            final(self).spec_capacity() == old(self).spec_capacity(),
    {
        self.stats.hits = self.stats.hits.wrapping_add(1);
        proof {
            assert(self@ =~= old(self)@.hit());
            law_recency_list_is_the_ready_set(
                old(self)@,
                CacheKey { dev: 0, lba: 0 },
                0,
                Waiter::Kernel { tid: 0, intra: 0, dst_kva: 0, len: 0 },
                0,
            );
        }
    }

    /// Adds a waiter to a page that is loading.
    pub fn register_waiter(&mut self, key: CacheKey, waiter: Waiter) -> (r: Result<(), CacheErr>)
        requires
            old(self).wf(),
        ensures
            final(self).wf(),
            final(self)@ == old(self)@.registered(key, waiter),
            final(self).spec_capacity() == old(self).spec_capacity(),
            r == (if !old(self)@.slots.contains_key(key) {
                Err::<(), CacheErr>(CacheErr::NotFound)
            } else if old(self)@.is_ready(key) {
                Err(CacheErr::WrongState)
            } else {
                Ok(())
            }),
    {
        proof {
            law_recency_list_is_the_ready_set(self@, key, 0, waiter, 0);
            law_frames_are_conserved(self@, key, 0, waiter, 0);
        }
        match self.entries.remove(&(key.dev, key.lba)) {
            None => {
                proof {
                    assert(self.entries@ =~= old(self).entries@);
                    assert(self@ =~= old(self)@);
                }
                Err(CacheErr::NotFound)
            },
            Some(SlotState::Ready { frame, valid_bytes }) => {
                let _ = self.entries.insert(
                    (key.dev, key.lba),
                    SlotState::Ready { frame, valid_bytes },
                );
                proof {
                    assert(self.entries@ =~= old(self).entries@);
                    assert(self@ =~= old(self)@);
                }
                Err(CacheErr::WrongState)
            },
            Some(SlotState::Loading { frame, valid_bytes, mut waiters }) => {
                waiters.push(waiter);
                let _ = self.entries.insert(
                    (key.dev, key.lba),
                    SlotState::Loading { frame, valid_bytes, waiters },
                );
                self.stats.coalesced = self.stats.coalesced.wrapping_add(1);
                proof {
                    assert(self@.slots =~= old(self)@.registered(key, waiter).slots);
                    assert(self@ =~= old(self)@.registered(key, waiter));
                }
                Ok(())
            },
        }
    }

    /// Takes a frame for a new page and starts loading it for `waiter`.
    /// Returns the physical address the device should write to.
    pub fn begin_load(&mut self, key: CacheKey, valid_bytes: u32, waiter: Waiter) -> (r: Result<
        u64,
        CacheErr,
    >)
        requires
            old(self).wf(),
        ensures
            final(self).wf(),
            final(self)@ == old(self)@.load_begun(key, valid_bytes, waiter),
            final(self).spec_capacity() == old(self).spec_capacity(),
            r == (if old(self)@.slots.contains_key(key) {
                Err::<u64, CacheErr>(CacheErr::AlreadyPresent)
            } else {
                match old(self)@.next_frame() {
                    None => Err(CacheErr::PoolExhausted),
                    Some(f) => Ok(f.pa),
                }
            }),
    {
        proof {
            law_recency_list_is_the_ready_set(self@, key, valid_bytes, waiter, 0);
            law_frames_are_conserved(self@, key, valid_bytes, waiter, 0);
        }
        if self.entries.contains_key(&(key.dev, key.lba)) {
            return Err(CacheErr::AlreadyPresent);
        }
        let frame = match self.acquire_frame() {
            Ok(f) => f,
            Err(e) => {
                return Err(e);
            },
        };
        let pa: u64 = frame.pa;
        let mut waiters: Vec<Waiter> = Vec::new();
        waiters.push(waiter);
        proof {
            assert(waiters@ =~= seq![waiter]);
        }
        let ghost mid = self@;
        let _ = self.entries.insert(
            (key.dev, key.lba),
            SlotState::Loading { frame, valid_bytes, waiters },
        );
        self.stats.misses = self.stats.misses.wrapping_add(1);
        proof {
            let want = old(self)@.load_begun(key, valid_bytes, waiter);
            assert(self@.slots =~= want.slots);
            assert(self@ =~= want);
        }
        Ok(pa)
    }

    /// Finishes the load of `key`. Status zero makes the page ready and the
    /// most recently used; any other status drops it and returns its frame to
    /// the pool. Hands back the waiters. A page that is not loading is left
    /// alone.
    pub fn complete_slot(&mut self, key: CacheKey, status: u8) -> (r: Vec<Waiter>)
        requires
            old(self).wf(),
        ensures
            final(self).wf(),
            final(self)@ == old(self)@.completed(key, status),
            final(self).spec_capacity() == old(self).spec_capacity(),
            r@ == (if old(self)@.is_loading(key) {
                old(self)@.slots[key].waiters->0
            } else {
                Seq::<Waiter>::empty()
            }),
    {
        proof {
            let w = Waiter::Kernel { tid: 0, intra: 0, dst_kva: 0, len: 0 };
            law_recency_list_is_the_ready_set(self@, key, 0, w, status);
            law_frames_are_conserved(self@, key, 0, w, status);
        }
        match self.entries.remove(&(key.dev, key.lba)) {
            None => {
                proof {
                    assert(self.entries@ =~= old(self).entries@);
                    assert(self@ =~= old(self)@);
                }
                Vec::new()
            },
            Some(SlotState::Ready { frame, valid_bytes }) => {
                let _ = self.entries.insert(
                    (key.dev, key.lba),
                    SlotState::Ready { frame, valid_bytes },
                );
                proof {
                    assert(self.entries@ =~= old(self).entries@);
                    assert(self@ =~= old(self)@);
                }
                Vec::new()
            },
            Some(SlotState::Loading { frame, valid_bytes, waiters }) => {
                if status == 0 {
                    let _ = self.entries.insert(
                        (key.dev, key.lba),
                        SlotState::Ready { frame, valid_bytes },
                    );
                    self.lru.push_front(key);
                } else {
                    self.stats.io_errors = self.stats.io_errors.wrapping_add(1);
                    self.pool.push(frame);
                }
                proof {
                    let want = old(self)@.completed(key, status);
                    assert(self@.slots =~= want.slots);
                    assert(self@ =~= want);
                }
                waiters
            },
        }
    }

    /// Takes a frame from the pool or, when the pool is empty, from the least
    /// recently used ready page.
    fn acquire_frame(&mut self) -> (r: Result<SharedFrame, CacheErr>)
        requires
            old(self).wf(),
        ensures
            final(self)@ == old(self)@.frame_taken(),
            final(self).spec_capacity() == old(self).spec_capacity(),
            r == (match old(self)@.next_frame() {
                None => Err::<SharedFrame, CacheErr>(CacheErr::PoolExhausted),
                Some(f) => Ok(f),
            }),
    {
        match self.pool.pop() {
            Some(f) => {
                proof {
                    assert(self@.slots =~= old(self)@.slots);
                    assert(self@ =~= old(self)@.frame_taken());
                }
                return Ok(f);
            },
            None => {},
        }
        let ghost before = self@;
        proof {
            assert(before.slots =~= old(self)@.slots);
            assert(before =~= old(self)@);
        }
        let victim = match self.lru.pop_back() {
            Some(k) => k,
            None => {
                self.stats.pool_exhausted = self.stats.pool_exhausted.wrapping_add(1);
                proof {
                    assert(self@.slots =~= old(self)@.slots);
                    assert(self@ =~= old(self)@.frame_taken());
                }
                return Err(CacheErr::PoolExhausted);
            },
        };
        proof {
            assert(before.lru.contains(before.lru.last()));
            assert(before.is_ready(victim));
        }
        let slot = self.entries.remove(&(victim.dev, victim.lba)).unwrap();
        self.stats.evictions = self.stats.evictions.wrapping_add(1);
        let frame = *slot.frame();
        proof {
            assert(self@.slots =~= old(self)@.frame_taken().slots);
            assert(self@ =~= old(self)@.frame_taken());
        }
        Ok(frame)
    }
}

/// Looking a page up moves it before all others, whose order stays; nothing
/// else changes but the count of hits.
pub proof fn law_a_used_page_comes_first(m: CacheModel, key: CacheKey)
    requires
        m.wf(),
        m.is_ready(key),
        m.stats.hits < u64::MAX,
    ensures
        m.hit().touched(key).lru[0] == key,
        m.hit().touched(key).lru.skip(1) == m.lru.filter(|k: CacheKey| k != key),
        m.hit().touched(key).slots == m.slots,
        m.hit().touched(key).pool == m.pool,
        m.hit().touched(key).stats == (PageCacheStats {
            hits: (m.stats.hits + 1) as u64,
            ..m.stats
        }),
{
    let t = m.touched(key).lru;
    let r = m.lru.remove_value(key);
    assert(t.skip(1) =~= r);
    let i = m.lru.index_of_first(key)->0;
    m.lru.index_of_first_ensures(key);
    assert(m.lru.contains(key));
    let p = |k: CacheKey| k != key;
    let a = m.lru.subrange(0, i);
    let b = m.lru.subrange(i + 1, m.lru.len() as int);
    assert(m.lru =~= a + seq![key] + b);
    assert(r =~= a + b);
    lemma_all_kept(a, p);
    lemma_all_kept(b, p);
    Seq::filter_distributes_over_add(a + seq![key], b, p);
    Seq::filter_distributes_over_add(a, seq![key], p);
    assert(seq![key].filter(p) =~= Seq::<CacheKey>::empty()) by {
        reveal(Seq::filter);
        assert(seq![key].drop_last() =~= Seq::<CacheKey>::empty());
        assert(seq![key].drop_last().filter(p) =~= Seq::<CacheKey>::empty());
    }
    assert(m.lru.filter(p) =~= a + b);
}

proof fn lemma_all_kept(s: Seq<CacheKey>, p: spec_fn(CacheKey) -> bool)
    requires
        forall|i: int| 0 <= i < s.len() ==> p(#[trigger] s[i]),
    ensures
        s.filter(p) == s,
    decreases s.len(),
{
    reveal(Seq::filter);
    if s.len() > 0 {
        let d = s.drop_last();
        assert forall|i: int| 0 <= i < d.len() implies p(#[trigger] d[i]) by {
            assert(d[i] == s[i]);
        }
        lemma_all_kept(d, p);
        assert(s =~= d.push(s.last()));
    }
}

/// A load takes a free frame where there is one, and else the frame of the
/// page that was used longest ago, which leaves the cache. Without either it
/// is refused and nothing leaves.
pub proof fn law_a_load_takes_a_frame(m: CacheModel, key: CacheKey, valid: u32, w: Waiter)
    requires
        m.wf(),
        !m.slots.contains_key(key),
        m.stats.misses < u64::MAX,
        m.stats.evictions < u64::MAX,
        m.stats.pool_exhausted < u64::MAX,
    ensures
        ({
            let n = m.load_begun(key, valid, w);
            let last = m.lru.last();
            &&& m.next_frame() is None <==> m.pool.len() == 0 && m.lru.len() == 0
            &&& m.pool.len() > 0 ==> {
                &&& m.next_frame() == Some(m.pool.last())
                &&& n.pool.push(m.pool.last()) == m.pool
                &&& n.lru == m.lru
                &&& n.slots.remove(key) == m.slots
                &&& n.stats.evictions == m.stats.evictions
            }
            &&& m.pool.len() == 0 && m.lru.len() > 0 ==> {
                &&& m.next_frame() == Some(m.slots[last].frame)
                &&& n.pool == m.pool
                &&& n.lru.push(last) == m.lru
                &&& n.slots.remove(key) == m.slots.remove(last)
                &&& n.stats.evictions == m.stats.evictions + 1
            }
            &&& m.next_frame() matches Some(f) ==> {
                &&& n.is_loading(key)
                &&& n.slots[key].frame == f
                &&& n.slots[key].valid_bytes == valid
                &&& n.slots[key].waiters == Some(seq![w])
                &&& n.stats.misses == m.stats.misses + 1
                &&& n.stats.pool_exhausted == m.stats.pool_exhausted
            }
            &&& m.next_frame() is None ==> {
                &&& n.slots == m.slots && n.pool == m.pool && n.lru == m.lru
                &&& n.stats == (PageCacheStats {
                    pool_exhausted: (m.stats.pool_exhausted + 1) as u64,
                    ..m.stats
                })
            }
            &&& n.stats.hits == m.stats.hits && n.stats.io_errors == m.stats.io_errors
                && n.stats.coalesced == m.stats.coalesced
        }),
{
    let n = m.load_begun(key, valid, w);
    if m.pool.len() > 0 {
        assert(n.pool.push(m.pool.last()) =~= m.pool);
        assert(n.slots.remove(key) =~= m.slots);
    } else if m.lru.len() > 0 {
        assert(m.lru.contains(m.lru.last()));
        assert(n.lru.push(m.lru.last()) =~= m.lru);
        assert(n.slots.remove(key) =~= m.slots.remove(m.lru.last()));
    }
}

/// A page that was read is there for its readers, before all others; one
/// that failed goes, and its frame is free again. Other pages do not notice,
/// and what is not being loaded cannot complete.
pub proof fn law_a_load_succeeds_or_frees_its_frame(
    m: CacheModel,
    key: CacheKey,
    status: u8,
    other: CacheKey,
)
    requires
        other != key,
        m.stats.io_errors < u64::MAX,
    ensures
        ({
            let n = m.completed(key, status);
            &&& n.slots.contains_key(other) == m.slots.contains_key(other)
            &&& m.slots.contains_key(other) ==> n.slots[other] == m.slots[other]
            &&& !m.is_loading(key) ==> n == m
            &&& m.is_loading(key) && status == 0 ==> {
                &&& n.is_ready(key)
                &&& n.slots[key].frame == m.slots[key].frame
                &&& n.slots[key].valid_bytes == m.slots[key].valid_bytes
                &&& n.lru[0] == key
                &&& n.lru.skip(1) == m.lru
                &&& n.pool == m.pool
                &&& n.stats == m.stats
            }
            &&& m.is_loading(key) && status != 0 ==> {
                &&& !n.slots.contains_key(key)
                &&& n.pool.len() == m.pool.len() + 1
                &&& n.pool.last() == m.slots[key].frame
                &&& n.pool.drop_last() == m.pool
                &&& n.lru == m.lru
                &&& n.stats == (PageCacheStats {
                    io_errors: (m.stats.io_errors + 1) as u64,
                    ..m.stats
                })
            }
        }),
{
    let n = m.completed(key, status);
    if m.is_loading(key) && status == 0 {
        assert(n.lru.skip(1) =~= m.lru);
    } else if m.is_loading(key) {
        assert(n.pool.drop_last() =~= m.pool);
    }
}

/// A reader of a page that is being loaded waits behind those who came
/// before, and takes no frame.
pub proof fn law_a_reader_joins_the_load(m: CacheModel, key: CacheKey, w: Waiter, other: CacheKey)
    requires
        other != key,
        m.is_loading(key),
        m.stats.coalesced < u64::MAX,
    ensures
        ({
            let n = m.registered(key, w);
            &&& n.is_loading(key)
            &&& n.slots[key].waiters->0.last() == w
            &&& n.slots[key].waiters->0.drop_last() == m.slots[key].waiters->0
            &&& n.slots[key].frame == m.slots[key].frame
            &&& n.slots[key].valid_bytes == m.slots[key].valid_bytes
            &&& n.slots.contains_key(other) == m.slots.contains_key(other)
            &&& m.slots.contains_key(other) ==> n.slots[other] == m.slots[other]
            &&& n.pool == m.pool && n.lru == m.lru
            &&& n.stats == (PageCacheStats {
                coalesced: (m.stats.coalesced + 1) as u64,
                ..m.stats
            })
        }),
{
    let n = m.registered(key, w);
    assert(n.slots[key].waiters->0.drop_last() =~= m.slots[key].waiters->0);
}

/// The word that stands for a page has its top bit set, the device in its
/// low byte and the block above it; a word without the top bit names none.
pub proof fn law_a_page_word_has_its_parts(key: CacheKey, word: u64)
    requires
        key.lba < 0x80_0000_0000_0000,
    ensures
        packed(key) == 0x8000_0000_0000_0000 + key.lba * 256 + key.dev,
        unpacked(word) is None <==> word < 0x8000_0000_0000_0000,
{
    let lba = key.lba;
    let dev = key.dev as u64;
    assert(lba < 0x80_0000_0000_0000u64 && dev < 256 ==> (0x8000_0000_0000_0000u64 | ((lba << 8u64)
        & 0x7FFF_FFFF_FFFF_FF00u64) | dev) == 0x8000_0000_0000_0000u64 + lba * 256 + dev)
        by (bit_vector);
    assert(word & 0x8000_0000_0000_0000u64 == 0 <==> word < 0x8000_0000_0000_0000) by (bit_vector);
}

/// A cache starts with all its frames free and nothing counted.
pub proof fn law_a_cache_starts_empty(pool: Seq<SharedFrame>, key: CacheKey)
    ensures
        ({
            let m = empty_cache(pool);
            &&& !m.slots.contains_key(key)
            &&& m.lru.len() == 0
            &&& m.pool == pool
            &&& m.stats.hits == 0 && m.stats.misses == 0 && m.stats.coalesced == 0
            &&& m.stats.evictions == 0 && m.stats.pool_exhausted == 0 && m.stats.io_errors == 0
            &&& m.stats.inflight_pages == 0 && m.stats.ready_pages == 0
        }),
{
}

} // verus!
