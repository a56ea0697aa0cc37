//! Loading programs from ELF images.
//!
//! Loading alternates with the frame allocator and the page-table mapper: the
//! loader says which segment needs how much memory, takes the frames, says
//! what goes there and where it is mapped, and goes on to the next segment.

use crate::abi::PagePerms;
use crate::orbit::Effect;
use crate::memops::MappingPlan;
use crate::process::{FrameWant, PhysBacking, Pool};
#[allow(unused_imports)]
use crate::teardown::free_all;
use elf::endian::LittleEndian;
use elf::ElfBytes;
use vstd::prelude::*;

verus! {

/// Segment types.
pub const PT_LOAD: u32 = 1;

pub const PT_TLS: u32 = 7;

/// One entry of a program header table.
#[derive(Clone, Copy, Debug, PartialEq, Eq, Structural)]
pub struct SegmentHeader {
    pub p_type: u32,
    pub p_flags: u32,
    pub p_offset: u64,
    pub p_vaddr: u64,
    pub p_filesz: u64,
    pub p_memsz: u64,
    pub p_align: u64,
}

/// Initial image of a program's thread-local storage. Bytes after `template`
/// up to `memsz` are zero.
#[derive(Debug)]
pub struct TlsTemplate {
    pub template: Vec<u8>,
    pub memsz: u64,
    pub align: u64,
}

/// A loaded program.
#[derive(Debug)]
pub struct ElfInfo {
    pub entrypoint: u64,
    pub segments: Vec<PhysBacking>,
    pub tls: Option<TlsTemplate>,
}

/// What a template holds.
#[verifier::ext_equal]
pub struct TlsView {
    pub template: Seq<u8>,
    pub memsz: u64,
    pub align: u64,
}

impl View for TlsTemplate {
    type V = TlsView;

    open spec fn view(&self) -> TlsView {
        TlsView { template: self.template@, memsz: self.memsz, align: self.align }
    }
}

pub open spec fn tls_view(t: Option<TlsTemplate>) -> Option<TlsView> {
    match t {
        Some(x) => Some(x@),
        None => None,
    }
}

/// Entry point of an ELF image; `None` for bytes that are no such image.
pub uninterp spec fn elf_entry(blob: Seq<u8>) -> Option<u64>;

/// Number of program headers; `None` without a table of them.
pub uninterp spec fn elf_segment_count(blob: Seq<u8>) -> Option<usize>;

/// The `i`-th program header.
pub uninterp spec fn elf_segment(blob: Seq<u8>, i: usize) -> Option<SegmentHeader>;

/// `elf::ElfBytes::minimal_parse` for little-endian images: the entry point in
/// the file header it reads, or nothing if it refuses the bytes.
#[verifier::external_body]
fn parse_entry(blob: &[u8]) -> (r: Option<u64>)
    ensures
        r == elf_entry(blob@),
{
    ElfBytes::<LittleEndian>::minimal_parse(blob).ok().map(|e| e.ehdr.e_entry)
}

/// `elf::ElfBytes::segments` and the length of the table it hands out.
#[verifier::external_body]
fn parse_segment_count(blob: &[u8]) -> (r: Option<usize>)
    ensures
        r == elf_segment_count(blob@),
{
    let elf = ElfBytes::<LittleEndian>::minimal_parse(blob).ok()?;
    elf.segments().map(|t| t.len())
}

/// `elf::parse::ParsingTable::get` on the table that `elf::ElfBytes::segments`
/// hands out.
#[verifier::external_body]
fn parse_segment(blob: &[u8], i: usize) -> (r: Option<SegmentHeader>)
    ensures
        r == elf_segment(blob@, i),
{
    let elf = ElfBytes::<LittleEndian>::minimal_parse(blob).ok()?;
    let p = elf.segments()?.get(i).ok()?;
    Some(
        SegmentHeader {
            p_type: p.p_type,
            p_flags: p.p_flags,
            p_offset: p.p_offset,
            p_vaddr: p.p_vaddr,
            p_filesz: p.p_filesz,
            p_memsz: p.p_memsz,
            p_align: p.p_align,
        },
    )
}

/// The program headers from the `i`-th on, up to the first that is missing.
pub open spec fn headers_from(blob: Seq<u8>, i: int, n: int) -> Seq<SegmentHeader>
    decreases n - i,
{
    if i >= n {
        Seq::empty()
    } else {
        match elf_segment(blob, i as usize) {
            None => Seq::empty(),
            Some(h) => seq![h] + headers_from(blob, i + 1, n),
        }
    }
}

/// Entry point and program headers of an image.
pub open spec fn elf_headers(blob: Seq<u8>) -> Option<(u64, Seq<SegmentHeader>)> {
    match (elf_entry(blob), elf_segment_count(blob)) {
        (Some(entry), Some(n)) => Some((entry, headers_from(blob, 0, n as int))),
        _ => None,
    }
}

/// The segment's bytes lie inside the image.
pub open spec fn data_in_file(h: SegmentHeader, len: int) -> bool {
    h.p_offset + h.p_filesz <= len
}

/// The segment's bytes.
pub open spec fn data_of(h: SegmentHeader, blob: Seq<u8>) -> Seq<u8> {
    blob.subrange(h.p_offset as int, h.p_offset + h.p_filesz)
}

/// What comes next in loading.
pub enum NextSegment {
    /// The segment with this index.
    Place(int),
    /// Nothing more.
    Done,
    /// A segment that cannot be loaded.
    Bad,
}

/// The next segment to load from index `i` on. Segments of other types and
/// empty ones are passed over; one below `text_base` or with bytes outside the
/// image is bad.
pub open spec fn next_loadable(
    hs: Seq<SegmentHeader>,
    i: int,
    text_base: u64,
    len: int,
) -> NextSegment
    decreases hs.len() - i,
{
    if i < 0 || i >= hs.len() {
        NextSegment::Done
    } else if hs[i].p_type != PT_LOAD {
        next_loadable(hs, i + 1, text_base, len)
    } else if hs[i].p_vaddr < text_base {
        NextSegment::Bad
    } else if hs[i].p_memsz == 0 {
        next_loadable(hs, i + 1, text_base, len)
    } else if !data_in_file(hs[i], len) {
        NextSegment::Bad
    } else {
        NextSegment::Place(i)
    }
}

/// Bytes of memory that a segment takes.
pub open spec fn segment_size(h: SegmentHeader) -> u64 {
    if h.p_filesz > h.p_memsz {
        h.p_filesz
    } else {
        h.p_memsz
    }
}

/// `n` rounded up to whole pages, modulo the word size.
pub open spec fn page_up(n: u64) -> u64 {
    if n % 4096 == 0 {
        n
    } else {
        vstd::wrapping::u64_specs::wrapping_add((n - n % 4096) as u64, 4096)
    }
}

pub open spec fn bit_if(on: bool, bits: u64, rest: u64) -> u64 {
    if on {
        rest | bits
    } else {
        rest
    }
}

/// Permissions of a segment's pages: always the user's, and whatever the
/// segment's flags grant.
pub open spec fn segment_perms(flags: u32, p: PagePerms) -> u64 {
    bit_if(
        flags & 4 != 0,
        p.r,
        bit_if(flags & 2 != 0, p.w, bit_if(flags & 1 != 0, p.x, p.u)),
    )
}

/// A segment in memory: `file_len` bytes of the image from `file_off` on go to
/// the start of the frames, the rest is zero where `zero_tail` says so, and
/// `map_len` bytes are mapped at `va`.
#[derive(Clone, Copy, Debug, PartialEq, Eq, Structural)]
pub struct SegmentPlan {
    pub size: u64,
    pub file_off: u64,
    pub file_len: u64,
    pub zero_tail: bool,
    pub va: u64,
    pub map_len: u64,
    pub perms: u64,
}

pub open spec fn plan_of(h: SegmentHeader, p: PagePerms) -> SegmentPlan {
    SegmentPlan {
        size: segment_size(h),
        file_off: h.p_offset,
        file_len: h.p_filesz,
        zero_tail: h.p_memsz > h.p_filesz,
        va: (h.p_vaddr - h.p_vaddr % 4096) as u64,
        map_len: page_up(segment_size(h)),
        perms: segment_perms(h.p_flags, p),
    }
}

/// The frames of a segment.
pub open spec fn segment_want(size: u64) -> FrameWant {
    FrameWant { pool: Pool::User, size, align: 4096 }
}

/// Frames that a segment got.
pub open spec fn segment_backing(pa: u64, size: u64) -> PhysBacking {
    segment_want(size).at(pa)
}

impl SegmentPlan {
    /// What to ask the allocator for.
    pub fn frames(&self) -> (r: FrameWant)
        ensures
            r == segment_want(self.size),
    {
        FrameWant { pool: Pool::User, size: self.size, align: 4096 }
    }

    /// The mapping to make of the frames.
    pub fn mapping(&self) -> (r: MappingPlan)
        ensures
            r == (MappingPlan {
                va: self.va,
                len: self.map_len,
                page_size: 4096,
                levels: 4,
                perms: self.perms,
                revocable: false,
            }),
    {
        MappingPlan {
            va: self.va,
            len: self.map_len,
            page_size: 4096,
            levels: 4,
            perms: self.perms,
            revocable: false,
        }
    }
}

/// The thread-local storage image from header `i` on, if `found` came before.
/// An image that is too large, a second one, and one with bytes outside the
/// file are refused.
pub open spec fn tls_from(
    hs: Seq<SegmentHeader>,
    blob: Seq<u8>,
    tls_max: u64,
    i: int,
    found: Option<TlsView>,
) -> Result<Option<TlsView>, ()>
    decreases hs.len() - i,
{
    if i < 0 || i >= hs.len() {
        Ok(found)
    } else if hs[i].p_type != PT_TLS || hs[i].p_memsz == 0 {
        tls_from(hs, blob, tls_max, i + 1, found)
    } else if hs[i].p_memsz > tls_max || found is Some || !data_in_file(hs[i], blob.len() as int) {
        Err(())
    } else {
        tls_from(
            hs,
            blob,
            tls_max,
            i + 1,
            Some(
                TlsView {
                    template: data_of(hs[i], blob),
                    memsz: hs[i].p_memsz,
                    align: hs[i].p_align,
                },
            ),
        )
    }
}

/// A program on its way into memory.
pub struct ElfLoad {
    pub entry: u64,
    pub headers: Vec<SegmentHeader>,
    pub next: usize,
    pub granted: Vec<PhysBacking>,
}

/// What a pending load holds.
#[verifier::ext_equal]
pub struct LoadView {
    pub entry: u64,
    pub headers: Seq<SegmentHeader>,
    pub next: int,
    pub granted: Seq<PhysBacking>,
}

impl View for ElfLoad {
    type V = LoadView;

    open spec fn view(&self) -> LoadView {
        LoadView {
            entry: self.entry,
            headers: self.headers@,
            next: self.next as int,
            granted: self.granted@,
        }
    }
}

fn has_data(h: &SegmentHeader, len: usize) -> (r: bool)
    ensures
        r == data_in_file(*h, len as int),
{
    let n: u64 = len as u64;
    h.p_offset <= n && h.p_filesz <= n - h.p_offset
}

impl ElfLoad {
    /// Reads the headers of an image.
    pub fn parse(blob: &[u8]) -> (r: Option<Self>)
        ensures
            match elf_headers(blob@) {
                None => r is None,
                Some((entry, headers)) => r matches Some(l) && l@ == (LoadView {
                    entry,
                    headers,
                    next: 0,
                    granted: Seq::empty(),
                }),
            },
    {
        let entry: u64 = match parse_entry(blob) {
            Some(e) => e,
            None => {
                return None;
            },
        };
        let n: usize = match parse_segment_count(blob) {
            Some(n) => n,
            None => {
                return None;
            },
        };
        let mut headers: Vec<SegmentHeader> = Vec::new();
        let mut i: usize = 0;
        proof {
            assert(headers@ + headers_from(blob@, 0, n as int) =~= headers_from(blob@, 0, n as int));
        }
        while i < n
            invariant
                i <= n,
                headers@ + headers_from(blob@, i as int, n as int) == headers_from(
                    blob@,
                    0,
                    n as int,
                ),
            ensures
                headers@ == headers_from(blob@, 0, n as int),
            decreases n - i,
        {
            let ghost before = headers@;
            match parse_segment(blob, i) {
                Some(h) => {
                    headers.push(h);
                    proof {
                        assert(headers@ + headers_from(blob@, i + 1, n as int) =~= before + (seq![h]
                            + headers_from(blob@, i + 1, n as int)));
                    }
                },
                None => {
                    proof {
                        assert(headers@ + Seq::<SegmentHeader>::empty() =~= headers@);
                    }
                    break ;
                },
            }
            i = i + 1;
            proof {
                if i == n {
                    assert(headers@ + headers_from(blob@, i as int, n as int) =~= headers@);
                }
            }
        }
        Some(ElfLoad { entry, headers, next: 0, granted: Vec::new() })
    }

    /// The next segment that needs memory. `Ok(None)` once all are placed;
    /// `Err` at a segment that cannot be loaded.
    pub fn next_segment(&mut self, blob_len: usize, text_base: u64, perms: PagePerms) -> (r: Result<
        Option<SegmentPlan>,
        (),
    >)
        requires
            old(self).next <= old(self).headers@.len(),
        ensures
            match next_loadable(old(self)@.headers, old(self)@.next, text_base, blob_len as int) {
                NextSegment::Place(i) => {
                    &&& r == Ok::<Option<SegmentPlan>, ()>(
                        Some(plan_of(old(self)@.headers[i], perms)),
                    )
                    &&& final(self)@ == (LoadView { next: i + 1, ..old(self)@ })
                    &&& 0 <= i < old(self)@.headers.len()
                },
                NextSegment::Done => r == Ok::<Option<SegmentPlan>, ()>(None) && final(self)@ == (
                LoadView { next: old(self)@.headers.len() as int, ..old(self)@ }),
                NextSegment::Bad => r is Err && final(self)@.granted == old(self)@.granted,
            },
            final(self).next <= final(self).headers@.len(),
    {
        let ghost goal = next_loadable(self@.headers, self@.next, text_base, blob_len as int);
        while self.next < self.headers.len()
            invariant
                self.next <= self.headers@.len(),
                self@ == (LoadView { next: self@.next, ..old(self)@ }),
                goal == next_loadable(
                    old(self)@.headers,
                    old(self)@.next,
                    text_base,
                    blob_len as int,
                ),
                goal == next_loadable(self@.headers, self@.next, text_base, blob_len as int),
            decreases self.headers@.len() - self.next,
        {
            let i: usize = self.next;
            let h: SegmentHeader = self.headers[i];
            self.next = i + 1;
            if h.p_type == PT_LOAD {
                if h.p_vaddr < text_base {
                    return Err(());
                }
                if h.p_memsz != 0 {
                    if !has_data(&h, blob_len) {
                        return Err(());
                    }
                    return Ok(Some(Self::plan(h, perms)));
                }
            }
        }
        Ok(None)
    }

    fn plan(h: SegmentHeader, p: PagePerms) -> (r: SegmentPlan)
        ensures
            r == plan_of(h, p),
    {
        let size: u64 = if h.p_filesz > h.p_memsz {
            h.p_filesz
        } else {
            h.p_memsz
        };
        let map_len: u64 = if size % 4096 == 0 {
            size
        } else {
            (size - size % 4096).wrapping_add(4096)
        };
        let mut perms: u64 = p.u;
        if h.p_flags & 1 != 0 {
            perms = perms | p.x;
        }
        if h.p_flags & 2 != 0 {
            perms = perms | p.w;
        }
        if h.p_flags & 4 != 0 {
            perms = perms | p.r;
        }
        SegmentPlan {
            size,
            file_off: h.p_offset,
            file_len: h.p_filesz,
            zero_tail: h.p_memsz > h.p_filesz,
            va: h.p_vaddr - h.p_vaddr % 4096,
            map_len,
            perms,
        }
    }

    /// Takes the frames that a segment got.
    pub fn take_frames(&mut self, pa: u64, plan: SegmentPlan)
        ensures
            final(self)@ == (LoadView {
                granted: old(self)@.granted.push(segment_backing(pa, plan.size)),
                ..old(self)@
            }),
    {
        self.granted.push(plan.frames().granted(pa));
    }

    /// Gives every frame back after a refused allocation or mapping.
    pub fn abandon(self) -> (r: Vec<Effect>)
        ensures
            r@ == free_all(self@.granted),
    {
        free_list(&self.granted)
    }

    /// Ends a load whose segments are all placed. On a bad thread-local
    /// storage image the frames are handed back to be freed.
    pub fn finish(self, blob: &[u8], tls_max: u64) -> (r: Result<ElfInfo, Vec<Effect>>)
        ensures
            match tls_from(self@.headers, blob@, tls_max, 0, None) {
                Ok(t) => r matches Ok(info) && info.entrypoint == self@.entry && info.segments@
                    == self@.granted && tls_view(info.tls) == t,
                Err(_) => r matches Err(e) && e@ == free_all(self@.granted),
            },
    {
        match find_tls(&self.headers, blob, tls_max) {
            Ok(tls) => Ok(ElfInfo { entrypoint: self.entry, segments: self.granted, tls }),
            Err(()) => Err(free_list(&self.granted)),
        }
    }
}

/// A free for each run of frames in a list.
pub fn free_list(list: &Vec<PhysBacking>) -> (r: Vec<Effect>)
    ensures
        r@ == free_all(list@),
{
    let mut out: Vec<Effect> = Vec::new();
    let mut i: usize = 0;
    while i < list.len()
        invariant
            i <= list@.len(),
            out@ == free_all(list@.take(i as int)),
        decreases list@.len() - i,
    {
        out.push(Effect::Free(list[i]));
        proof {
            assert(out@ =~= free_all(list@.take(i + 1)));
        }
        i = i + 1;
    }
    proof {
        assert(list@.take(i as int) =~= list@);
    }
    out
}

/// A copy of part of a byte string.
pub fn copy_range(b: &[u8], from: usize, to: usize) -> (r: Vec<u8>)
    requires
        from <= to <= b@.len(),
    ensures
        r@ == b@.subrange(from as int, to as int),
{
    let mut out: Vec<u8> = Vec::new();
    let mut i: usize = from;
    while i < to
        invariant
            from <= i <= to <= b@.len(),
            out@ == b@.subrange(from as int, i as int),
        decreases to - i,
    {
        out.push(b[i]);
        proof {
            assert(out@ =~= b@.subrange(from as int, i + 1));
        }
        i = i + 1;
    }
    out
}

/// Finds the thread-local storage image of a program.
pub fn find_tls(headers: &Vec<SegmentHeader>, blob: &[u8], tls_max: u64) -> (r: Result<
    Option<TlsTemplate>,
    (),
>)
    ensures
        match tls_from(headers@, blob@, tls_max, 0, None) {
            Ok(t) => r matches Ok(x) && tls_view(x) == t,
            Err(_) => r is Err,
        },
{
    let mut found: Option<TlsTemplate> = None;
    let mut i: usize = 0;
    while i < headers.len()
        invariant
            i <= headers@.len(),
            tls_from(headers@, blob@, tls_max, 0, None) == tls_from(
                headers@,
                blob@,
                tls_max,
                i as int,
                tls_view(found),
            ),
        decreases headers@.len() - i,
    {
        let h: SegmentHeader = headers[i];
        if h.p_type == PT_TLS && h.p_memsz != 0 {
            if h.p_memsz > tls_max {
                return Err(());
            }
            if found.is_some() {
                return Err(());
            }
            if !has_data(&h, blob.len()) {
                return Err(());
            }
            let from: usize = h.p_offset as usize;
            let to: usize = (h.p_offset + h.p_filesz) as usize;
            let template: Vec<u8> = copy_range(blob, from, to);
            found = Some(TlsTemplate { template, memsz: h.p_memsz, align: h.p_align });
        }
        i = i + 1;
    }
    Ok(found)
}

/// Everything that is loaded lies at or above the text base, has its bytes in
/// the image and takes memory.
pub proof fn law_placed_segments_are_sound(
    hs: Seq<SegmentHeader>,
    i: int,
    text_base: u64,
    len: int,
    p: PagePerms,
)
    ensures
        next_loadable(hs, i, text_base, len) matches NextSegment::Place(k) ==> {
            &&& i <= k < hs.len()
            &&& hs[k].p_type == PT_LOAD
            &&& hs[k].p_vaddr >= text_base
            &&& data_in_file(hs[k], len)
            &&& plan_of(hs[k], p).size > 0
            &&& plan_of(hs[k], p).file_len <= plan_of(hs[k], p).size
            &&& plan_of(hs[k], p).va % 4096 == 0
        },
    decreases hs.len() - i,
{
    if 0 <= i < hs.len() && (hs[i].p_type != PT_LOAD || (hs[i].p_vaddr >= text_base && hs[i].p_memsz
        == 0)) {
        law_placed_segments_are_sound(hs, i + 1, text_base, len, p);
    }
}

/// A program's thread-local storage image is never larger than the reservation
/// for it.
pub proof fn law_tls_fits_its_reservation(
    hs: Seq<SegmentHeader>,
    blob: Seq<u8>,
    tls_max: u64,
    i: int,
    found: Option<TlsView>,
)
    requires
        found matches Some(t) ==> 0 < t.memsz <= tls_max,
    ensures
        tls_from(hs, blob, tls_max, i, found) matches Ok(Some(t)) ==> 0 < t.memsz <= tls_max,
    decreases hs.len() - i,
{
    if 0 <= i < hs.len() {
        if hs[i].p_type != PT_TLS || hs[i].p_memsz == 0 {
            law_tls_fits_its_reservation(hs, blob, tls_max, i + 1, found);
        } else if hs[i].p_memsz <= tls_max && found is None && data_in_file(
            hs[i],
            blob.len() as int,
        ) {
            law_tls_fits_its_reservation(
                hs,
                blob,
                tls_max,
                i + 1,
                Some(
                    TlsView {
                        template: data_of(hs[i], blob),
                        memsz: hs[i].p_memsz,
                        align: hs[i].p_align,
                    },
                ),
            );
        }
    }
}

/// The four permission bits of a page are four different ones.
pub open spec fn distinct_bits(p: PagePerms) -> bool {
    &&& p.r != 0 && p.w != 0 && p.x != 0 && p.u != 0
    &&& p.r & p.w == 0 && p.r & p.x == 0 && p.r & p.u == 0
    &&& p.w & p.x == 0 && p.w & p.u == 0
    &&& p.x & p.u == 0
}

proof fn lemma_bits(r: u64, w: u64, x: u64, u: u64, fr: bool, fw: bool, fx: bool, m: u64)
    by (bit_vector)
    requires
        r != 0 && w != 0 && x != 0 && u != 0,
        r & w == 0 && r & x == 0 && r & u == 0,
        w & x == 0 && w & u == 0,
        x & u == 0,
        m == u | (if fx {
            x
        } else {
            0
        }) | (if fw {
            w
        } else {
            0
        }) | (if fr {
            r
        } else {
            0
        }),
    ensures
        (m & r == r) == fr && (m & r == 0) == !fr,
        (m & w == w) == fw && (m & w == 0) == !fw,
        (m & x == x) == fx && (m & x == 0) == !fx,
        m & u == u,
        m & !(r | w | x | u) == 0,
{
}

proof fn lemma_or_zero(a: u64)
    by (bit_vector)
    ensures
        a | 0 == a,
{
}

/// The pages of a segment have the rights that its flags name, each for itself:
/// they can be read exactly if the flags hold 4, written exactly if they hold 2
/// and executed exactly if they hold 1. The user always reaches them, and
/// nothing else is granted.
pub proof fn law_pages_have_the_rights_of_their_segment(h: SegmentHeader, p: PagePerms)
    requires
        distinct_bits(p),
    ensures
        ({
            let m = plan_of(h, p).perms;
            &&& m & p.r == p.r <==> h.p_flags & 4 != 0
            &&& m & p.r == 0 <==> h.p_flags & 4 == 0
            &&& m & p.w == p.w <==> h.p_flags & 2 != 0
            &&& m & p.w == 0 <==> h.p_flags & 2 == 0
            &&& m & p.x == p.x <==> h.p_flags & 1 != 0
            &&& m & p.x == 0 <==> h.p_flags & 1 == 0
            &&& m & p.u == p.u
            &&& m & !(p.r | p.w | p.x | p.u) == 0
        }),
{
    let m = plan_of(h, p).perms;
    let (fr, fw, fx) = (h.p_flags & 4 != 0, h.p_flags & 2 != 0, h.p_flags & 1 != 0);
    lemma_or_zero(p.u);
    let a: u64 = p.u | (if fx {
        p.x
    } else {
        0
    });
    lemma_or_zero(a);
    let b: u64 = a | (if fw {
        p.w
    } else {
        0
    });
    lemma_or_zero(b);
    lemma_bits(p.r, p.w, p.x, p.u, fr, fw, fx, m);
}

/// A segment gets room for all its bytes, in whole pages from the page of its
/// address on; its bytes come from its place in the file, and what the file does
/// not have is zero.
pub proof fn law_a_segment_lies_where_it_says(h: SegmentHeader, p: PagePerms)
    requires
        h.p_filesz <= u64::MAX - 4095,
        h.p_memsz <= u64::MAX - 4095,
    ensures
        ({
            let s = plan_of(h, p);
            &&& s.va % 4096 == 0 && s.va <= h.p_vaddr && h.p_vaddr - s.va < 4096
            &&& s.size >= h.p_memsz && s.size >= h.p_filesz
            &&& s.size == h.p_memsz || s.size == h.p_filesz
            &&& s.map_len % 4096 == 0 && s.map_len >= s.size && s.map_len - s.size < 4096
            &&& s.file_off == h.p_offset && s.file_len == h.p_filesz
            &&& s.zero_tail <==> h.p_memsz > h.p_filesz
        }),
{
}

/// The frames of a segment come from the user's pool, on whole pages.
pub proof fn law_segments_live_in_user_frames(pa: u64, size: u64)
    ensures
        segment_want(size).pool == Pool::User,
        segment_want(size).size == size,
        segment_want(size).align == 4096,
        segment_backing(pa, size).pa == pa,
        segment_backing(pa, size).size == size,
        segment_backing(pa, size).pool == Pool::User,
{
}

/// A header that asks for memory.
pub open spec fn wants_memory(h: SegmentHeader) -> bool {
    h.p_type == 1 && h.p_memsz > 0
}

/// A load segment below the program's base, or one that needs bytes the file
/// does not have.
pub open spec fn cannot_load(h: SegmentHeader, text_base: u64, len: int) -> bool {
    h.p_type == 1 && (h.p_vaddr < text_base || (h.p_memsz > 0 && h.p_offset + h.p_filesz > len))
}

/// Segments are placed in the order of their headers, none is passed over and
/// none that cannot be loaded is placed.
pub proof fn law_no_segment_is_passed_over(
    hs: Seq<SegmentHeader>,
    i: int,
    text_base: u64,
    len: int,
) -> (k: int)
    requires
        0 <= i <= hs.len(),
    ensures
        i <= k <= hs.len(),
        forall|j: int|
            i <= j < k ==> !wants_memory(#[trigger] hs[j]) && !cannot_load(hs[j], text_base, len),
        match next_loadable(hs, i, text_base, len) {
            NextSegment::Done => k == hs.len(),
            NextSegment::Place(n) => n == k && k < hs.len() && wants_memory(hs[k]) && !cannot_load(
                hs[k],
                text_base,
                len,
            ),
            NextSegment::Bad => k < hs.len() && cannot_load(hs[k], text_base, len),
        },
    decreases hs.len() - i,
{
    if i < hs.len() && !wants_memory(hs[i]) && !cannot_load(hs[i], text_base, len) {
        law_no_segment_is_passed_over(hs, i + 1, text_base, len)
    } else {
        i
    }
}

/// A header that describes thread-local storage.
pub open spec fn is_tls(h: SegmentHeader) -> bool {
    h.p_type == 7 && h.p_memsz > 0
}

/// A program has at most one image of thread-local storage: the one that its
/// only header for it names, if that fits the reservation and the file has its
/// bytes. Two headers, or one that does not fit, make the program bad.
pub proof fn law_the_tls_image_is_found(hs: Seq<SegmentHeader>, blob: Seq<u8>, tls_max: u64, k: int)
    requires
        0 <= k < hs.len(),
        is_tls(hs[k]),
    ensures
        match tls_from(hs, blob, tls_max, 0, None) {
            Ok(None) => false,
            Ok(Some(t)) => {
                &&& forall|j: int| 0 <= j < hs.len() && is_tls(#[trigger] hs[j]) ==> j == k
                &&& hs[k].p_memsz <= tls_max
                &&& hs[k].p_offset + hs[k].p_filesz <= blob.len()
                &&& t.memsz == hs[k].p_memsz && t.align == hs[k].p_align
                &&& t.template.len() == hs[k].p_filesz
                &&& forall|j: int|
                    0 <= j < t.template.len() ==> #[trigger] t.template[j] == blob[hs[k].p_offset
                        + j]
            },
            Err(_) => {
                ||| exists|j: int| 0 <= j < hs.len() && j != k && is_tls(#[trigger] hs[j])
                ||| hs[k].p_memsz > tls_max
                ||| hs[k].p_offset + hs[k].p_filesz > blob.len()
            },
        },
{
    lemma_tls_before(hs, blob, tls_max, 0, k);
}

/// A program without a header for thread-local storage has none.
pub proof fn law_no_tls_header_no_tls(hs: Seq<SegmentHeader>, blob: Seq<u8>, tls_max: u64)
    requires
        forall|j: int| 0 <= j < hs.len() ==> !is_tls(#[trigger] hs[j]),
    ensures
        tls_from(hs, blob, tls_max, 0, None) == Ok::<Option<TlsView>, ()>(None),
{
    lemma_tls_rest(hs, blob, tls_max, 0, None);
}

proof fn lemma_tls_rest(
    hs: Seq<SegmentHeader>,
    blob: Seq<u8>,
    tls_max: u64,
    i: int,
    found: Option<TlsView>,
)
    requires
        0 <= i <= hs.len(),
    ensures
        (forall|j: int| i <= j < hs.len() ==> !is_tls(#[trigger] hs[j])) ==> tls_from(
            hs,
            blob,
            tls_max,
            i,
            found,
        ) == Ok::<Option<TlsView>, ()>(found),
        found is Some && (exists|j: int| i <= j < hs.len() && is_tls(#[trigger] hs[j]))
            ==> tls_from(hs, blob, tls_max, i, found) is Err,
    decreases hs.len() - i,
{
    if i < hs.len() && !is_tls(hs[i]) {
        lemma_tls_rest(hs, blob, tls_max, i + 1, found);
        if exists|j: int| i <= j < hs.len() && is_tls(#[trigger] hs[j]) {
            let j = choose|j: int| i <= j < hs.len() && is_tls(#[trigger] hs[j]);
            assert(i + 1 <= j && is_tls(hs[j]));
        }
    }
}

proof fn lemma_tls_before(
    hs: Seq<SegmentHeader>,
    blob: Seq<u8>,
    tls_max: u64,
    i: int,
    k: int,
)
    requires
        0 <= i <= k < hs.len(),
        is_tls(hs[k]),
    ensures
        match tls_from(hs, blob, tls_max, i, None) {
            Ok(None) => false,
            Ok(Some(t)) => {
                &&& forall|j: int| i <= j < hs.len() && is_tls(#[trigger] hs[j]) ==> j == k
                &&& hs[k].p_memsz <= tls_max
                &&& hs[k].p_offset + hs[k].p_filesz <= blob.len()
                &&& t.memsz == hs[k].p_memsz && t.align == hs[k].p_align
                &&& t.template == blob.subrange(
                    hs[k].p_offset as int,
                    hs[k].p_offset + hs[k].p_filesz,
                )
            },
            Err(_) => {
                ||| exists|j: int| i <= j < hs.len() && j != k && is_tls(#[trigger] hs[j])
                ||| hs[k].p_memsz > tls_max
                ||| hs[k].p_offset + hs[k].p_filesz > blob.len()
            },
        },
    decreases k - i,
{
    if is_tls(hs[i]) {
        let t = TlsView {
            template: data_of(hs[i], blob),
            memsz: hs[i].p_memsz,
            align: hs[i].p_align,
        };
        lemma_tls_rest(hs, blob, tls_max, i + 1, Some(t));
        if i != k {
            assert(i + 1 <= k && is_tls(hs[k]));
        } else if !(forall|j: int| i + 1 <= j < hs.len() ==> !is_tls(#[trigger] hs[j])) {
            let j = choose|j: int| i + 1 <= j < hs.len() && is_tls(#[trigger] hs[j]);
            assert(j != k && is_tls(hs[j]));
        }
    } else {
        lemma_tls_before(hs, blob, tls_max, i + 1, k);
        if tls_from(hs, blob, tls_max, i, None) is Err {
            if exists|j: int| i + 1 <= j < hs.len() && j != k && is_tls(#[trigger] hs[j]) {
                let j = choose|j: int| i + 1 <= j < hs.len() && j != k && is_tls(#[trigger] hs[j]);
                assert(i <= j && is_tls(hs[j]));
            }
        }
    }
}

/// The headers of an image are its own, in their order and from the first on.
pub proof fn law_headers_are_read_in_order(blob: Seq<u8>, i: int, n: int, j: int)
    requires
        0 <= i <= n <= usize::MAX,
        0 <= j < headers_from(blob, i, n).len(),
    ensures
        i + headers_from(blob, i, n).len() <= n,
        elf_segment(blob, (i + j) as usize) == Some(headers_from(blob, i, n)[j]),
        i + headers_from(blob, i, n).len() < n ==> elf_segment(
            blob,
            (i + headers_from(blob, i, n).len()) as usize,
        ) is None,
    decreases n - i,
{
    if i < n && elf_segment(blob, i as usize) is Some {
        let rest = headers_from(blob, i + 1, n);
        if j > 0 {
            law_headers_are_read_in_order(blob, i + 1, n, j - 1);
        } else if rest.len() > 0 {
            law_headers_are_read_in_order(blob, i + 1, n, 0);
        } else {
            assert(headers_from(blob, i, n).len() == 1);
        }
    }
}

/// An image is read from its first segment on, as many as it says it has, up
/// to one that is not legible.
pub proof fn law_an_image_has_all_its_headers(blob: Seq<u8>, j: int)
    ensures
        elf_headers(blob) is Some <==> elf_entry(blob) is Some && elf_segment_count(blob) is Some,
        elf_headers(blob) matches Some((entry, hs)) ==> {
            &&& elf_entry(blob) == Some(entry)
            &&& hs.len() <= elf_segment_count(blob)->0
            &&& 0 <= j < hs.len() ==> elf_segment(blob, j as usize) == Some(hs[j])
            &&& hs.len() < elf_segment_count(blob)->0 ==> elf_segment(
                blob,
                hs.len() as usize,
            ) is None
        },
{
    if let Some((entry, hs)) = elf_headers(blob) {
        let n = elf_segment_count(blob)->0 as int;
        if 0 <= j < hs.len() {
            law_headers_are_read_in_order(blob, 0, n, j);
        }
        if hs.len() > 0 {
            law_headers_are_read_in_order(blob, 0, n, 0);
        }
    }
}

} // verus!
