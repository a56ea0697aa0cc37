//! A process's memory as the manager sees it: which pages are mapped, where
//! they are, and the bytes on them.

use crate::abi::{to_ret, EFAULT, EINVAL, PAGE_SIZE};
#[allow(unused_imports)]
use crate::abi::{errno_ret, refused};
use std::collections::BTreeMap;
use vstd::prelude::*;
#[allow(unused_imports)]
use vstd::utf8::valid_utf8;

verus! {

broadcast use {vstd::laws_cmp::group_laws_cmp, vstd::std_specs::btree::group_btree_axioms};

/// One mapped user page.
pub struct UserPage {
    pub pa: u64,
    pub bytes: Vec<u8>,
}

/// What one mapped user page holds.
#[verifier::ext_equal]
pub struct PageView {
    pub pa: u64,
    pub bytes: Seq<u8>,
}

/// The mapped pages of one address space, by page-aligned virtual address.
pub struct UserSpace {
    pages: BTreeMap<u64, UserPage>,
}

/// Start of the page that holds `va`.
pub open spec fn page_base(va: int) -> int {
    va - va % 4096
}

impl View for UserSpace {
    type V = Map<u64, PageView>;

    closed spec fn view(&self) -> Map<u64, PageView> {
        self.pages@.map_values(|p: UserPage| PageView { pa: p.pa, bytes: p.bytes@ })
    }
}

/// Every byte of `[va, va + len)` lies on a mapped page.
pub open spec fn range_mapped(m: Map<u64, PageView>, va: int, len: int) -> bool {
    forall|a: int|
        #![trigger page_base(a)]
        va <= a < va + len ==> m.contains_key(page_base(a) as u64)
}

/// The byte at `va`.
pub open spec fn byte_at(m: Map<u64, PageView>, va: int) -> u8 {
    m[page_base(va) as u64].bytes[va % 4096]
}

/// The bytes of `[va, va + len)`.
pub open spec fn bytes_at(m: Map<u64, PageView>, va: int, len: int) -> Seq<u8> {
    Seq::new(len as nat, |i: int| byte_at(m, va + i))
}

/// The range stays on one page.
pub open spec fn on_one_page(va: u64, len: int) -> bool {
    va % 4096 + len <= 4096
}

/// Bytes to store on the user page at `page_pa`, from offset `off` on.
pub struct UserWrite {
    pub page_pa: u64,
    pub off: u64,
    pub bytes: Vec<u8>,
}

impl UserSpace {
    /// Every mapped page is 4 KiB aligned and holds 4096 bytes.
    pub closed spec fn wf(self) -> bool {
        forall|k: u64| #[trigger]
            self.pages@.contains_key(k) ==> k % 4096 == 0 && self.pages@[k].bytes@.len() == 4096
    }

    pub proof fn lemma_wf(&self)
        requires
            self.wf(),
        ensures
            forall|k: u64| #[trigger]
                self@.contains_key(k) ==> k % 4096 == 0 && self@[k].bytes.len() == 4096,
    {
        assert forall|k: u64| #[trigger] self@.contains_key(k) implies k % 4096 == 0
            && self@[k].bytes.len() == 4096 by {
            assert(self.pages@.contains_key(k));
        }
    }

    /// An address space with nothing mapped.
    pub fn new() -> (r: Self)
        ensures
            r.wf(),
            r@ == Map::<u64, PageView>::empty(),
    {
        let r = UserSpace { pages: BTreeMap::new() };
        proof {
            assert(r@ =~= Map::<u64, PageView>::empty());
        }
        r
    }

    /// Records the page at `va`. Refuses a page that is not 4 KiB aligned or
    /// does not hold 4096 bytes.
    pub fn map_page(&mut self, va: u64, pa: u64, bytes: Vec<u8>) -> (r: bool)
        requires
            old(self).wf(),
        ensures
            final(self).wf(),
            r == (va % 4096 == 0 && bytes@.len() == 4096),
            r ==> final(self)@ == old(self)@.insert(va, PageView { pa, bytes: bytes@ }),
            !r ==> final(self)@ == old(self)@,
    {
        if va % PAGE_SIZE != 0 || bytes.len() != 4096 {
            return false;
        }
        let ghost b = bytes@;
        let _ = self.pages.insert(va, UserPage { pa, bytes });
        proof {
            assert(self@ =~= old(self)@.insert(va, PageView { pa, bytes: b }));
            assert forall|k: u64| #[trigger] self.pages@.contains_key(k) implies k % 4096 == 0
                && self.pages@[k].bytes@.len() == 4096 by {
                if k != va {
                    assert(old(self).pages@.contains_key(k));
                }
            }
        }
        true
    }

    /// Physical address of the page at `page_va`.
    pub fn translate(&self, page_va: u64) -> (r: Option<u64>)
        ensures
            r == (if self@.contains_key(page_va) {
                Some(self@[page_va].pa)
            } else {
                None::<u64>
            }),
    {
        match self.pages.get(&page_va) {
            Some(p) => Some(p.pa),
            None => None,
        }
    }

    /// The bytes of the page at `page_va`.
    pub fn page(&self, page_va: u64) -> (r: &Vec<u8>)
        requires
            self@.contains_key(page_va),
        ensures
            r@ == self@[page_va].bytes,
    {
        &self.pages.get(&page_va).unwrap().bytes
    }

    /// Whether the page that holds `va` is mapped.
    pub fn translates(&self, va: u64) -> (r: bool)
        ensures
            r == self@.contains_key(page_base(va as int) as u64),
    {
        self.pages.contains_key(&(va - va % PAGE_SIZE))
    }

    /// Copies `len` bytes out of the address space, page by page. `None` if a
    /// page on the way is not mapped.
    pub fn read(&self, va: u64, len: u64) -> (r: Option<Vec<u8>>)
        requires
            self.wf(),
            va + len <= u64::MAX,
        ensures
            r is Some <==> range_mapped(self@, va as int, len as int),
            r matches Some(b) ==> b@ == bytes_at(self@, va as int, len as int),
    {
        let mut out: Vec<u8> = Vec::new();
        let mut copied: u64 = 0;
        while copied < len
            invariant
                self.wf(),
                va + len <= u64::MAX,
                copied <= len,
                range_mapped(self@, va as int, copied as int),
                out@ == bytes_at(self@, va as int, copied as int),
            decreases len - copied,
        {
            let cursor: u64 = va + copied;
            let off: u64 = cursor % PAGE_SIZE;
            let base: u64 = cursor - off;
            let room: u64 = PAGE_SIZE - off;
            let left: u64 = len - copied;
            let take: u64 = if room < left {
                room
            } else {
                left
            };
            let page = match self.pages.get(&base) {
                Some(p) => p,
                None => {
                    proof {
                        assert(page_base(cursor as int) == base);
                        assert(!self@.contains_key(page_base(cursor as int) as u64));
                    }
                    return None;
                },
            };
            let ghost before = out@;
            proof {
                assert(self.pages@.contains_key(base));
                assert(self@.contains_key(base));
                assert(self@[base].bytes == page.bytes@);
            }
            let mut i: u64 = 0;
            while i < take
                invariant
                    i <= take,
                    off + take <= 4096,
                    page.bytes@.len() == 4096,
                    out@.len() == before.len() + i,
                    forall|j: int| 0 <= j < before.len() ==> out@[j] == before[j],
                    forall|j: int|
                        before.len() <= j < out@.len() ==> out@[j] == page.bytes@[off + j
                            - before.len()],
                decreases take - i,
            {
                out.push(page.bytes[(off + i) as usize]);
                i = i + 1;
            }
            proof {
                assert forall|a: int|
                    #![trigger page_base(a)]
                    va <= a < va + copied + take implies self@.contains_key(page_base(a) as u64) by {
                    if a >= va + copied {
                        assert(page_base(a) == base) by {
                            let d = a - base;
                            assert(0 <= d < 4096);
                            assert(base % 4096 == 0);
                            assert(a % 4096 == d);
                        }
                    }
                }
                assert(out@ =~= bytes_at(self@, va as int, (copied + take) as int)) by {
                    assert forall|j: int| 0 <= j < out@.len() implies out@[j] == byte_at(
                        self@,
                        va + j,
                    ) by {
                        if j < before.len() {
                            assert(before[j] == byte_at(self@, va + j));
                        } else {
                            let a = va + j;
                            let d = a - base;
                            assert(0 <= d < 4096);
                            assert(base % 4096 == 0);
                            assert(a % 4096 == d);
                            assert(page_base(a) == base);
                        }
                    }
                }
            }
            copied = copied + take;
        }
        Some(out)
    }
}

/// `core::str::from_utf8`: accepts exactly the well-formed UTF-8 byte strings.
#[verifier::external_body]
pub(crate) fn utf8_ok(bytes: &[u8]) -> (r: bool)
    ensures
        r == valid_utf8(bytes@),
{
    core::str::from_utf8(bytes).is_ok()
}

/// A string of `len` bytes in user memory: `EFAULT` if part of it is not
/// mapped, `EINVAL` if it is not UTF-8.
pub open spec fn user_string(m: Map<u64, PageView>, va: int, len: int) -> Result<Seq<u8>, i64> {
    if !range_mapped(m, va, len) {
        Err(errno_ret(EFAULT))
    } else if !valid_utf8(bytes_at(m, va, len)) {
        Err(errno_ret(EINVAL))
    } else {
        Ok(bytes_at(m, va, len))
    }
}

/// The bytes behind a fallible vector.
pub open spec fn bytes_of(r: Result<Vec<u8>, i64>) -> Result<Seq<u8>, i64> {
    match r {
        Ok(v) => Ok(v@),
        Err(e) => Err(e),
    }
}

/// Copies a path or name of `len` bytes out of user memory.
pub fn copy_user_path(space: &UserSpace, va: u64, len: u64) -> (r: Result<Vec<u8>, i64>)
    requires
        space.wf(),
        va + len <= u64::MAX,
    ensures
        bytes_of(r) == user_string(space@, va as int, len as int),
{
    match space.read(va, len) {
        None => Err(to_ret(EFAULT)),
        Some(b) => {
            if utf8_ok(b.as_slice()) {
                Ok(b)
            } else {
                Err(to_ret(EINVAL))
            }
        },
    }
}

/// Bytes to store on a user page.
#[verifier::ext_equal]
pub struct WriteView {
    pub page_pa: u64,
    pub off: u64,
    pub bytes: Seq<u8>,
}

impl View for UserWrite {
    type V = WriteView;

    open spec fn view(&self) -> WriteView {
        WriteView { page_pa: self.page_pa, off: self.off, bytes: self.bytes@ }
    }
}

/// What an optional store holds.
pub open spec fn write_of(w: Option<UserWrite>) -> Option<WriteView> {
    match w {
        Some(x) => Some(x@),
        None => None,
    }
}

/// Page and offset behind `va`, or `EFAULT`.
pub open spec fn page_dst(m: Map<u64, PageView>, va: u64) -> Result<(u64, u64), i64> {
    let base = page_base(va as int) as u64;
    if m.contains_key(base) {
        Ok((m[base].pa, va % 4096))
    } else {
        Err(errno_ret(EFAULT))
    }
}

/// Page and offset behind a user buffer: `EFAULT` if it reaches `end` or is
/// not mapped, `EINVAL` if it does not stay on one page.
pub open spec fn user_page(m: Map<u64, PageView>, va: u64, len: u64, end: u64) -> Result<
    (u64, u64),
    i64,
> {
    if va + len > end {
        Err(errno_ret(EFAULT))
    } else if !on_one_page(va, len as int) {
        Err(errno_ret(EINVAL))
    } else {
        page_dst(m, va)
    }
}

impl UserSpace {
    /// Finds the page and the offset behind `va`.
    pub fn find_page(&self, va: u64) -> (r: Result<(u64, u64), i64>)
        ensures
            r == page_dst(self@, va),
    {
        let off: u64 = va % PAGE_SIZE;
        match self.translate(va - off) {
            Some(pa) => Ok((pa, off)),
            None => Err(to_ret(EFAULT)),
        }
    }

    /// Finds the page behind a user buffer that must stay on one page.
    pub fn find_user_page(&self, va: u64, len: u64, end: u64) -> (r: Result<(u64, u64), i64>)
        ensures
            r == user_page(self@, va, len, end),
    {
        if !crate::abi::user_range_ok(va, len, end) {
            return Err(to_ret(EFAULT));
        }
        if len > PAGE_SIZE || va % PAGE_SIZE + len > PAGE_SIZE {
            return Err(to_ret(EINVAL));
        }
        self.find_page(va)
    }
}

/// A 32-bit number as four bytes, lowest first.
pub open spec fn le32(x: u32) -> Seq<u8> {
    seq![
        (x & 0xff) as u8,
        ((x >> 8u32) & 0xff) as u8,
        ((x >> 16u32) & 0xff) as u8,
        ((x >> 24u32) & 0xff) as u8,
    ]
}

/// The 32-bit number in four bytes, lowest first.
pub open spec fn of_le32(b0: u8, b1: u8, b2: u8, b3: u8) -> u32 {
    (b0 as u32) | ((b1 as u32) << 8u32) | ((b2 as u32) << 16u32) | ((b3 as u32) << 24u32)
}

/// The `i`-th 32-bit number in a byte string.
pub open spec fn word_at(b: Seq<u8>, i: int) -> u32 {
    of_le32(b[4 * i], b[4 * i + 1], b[4 * i + 2], b[4 * i + 3])
}

/// The byte string of a list of 32-bit numbers.
pub open spec fn words_le(ws: Seq<u32>) -> Seq<u8>
    decreases ws.len(),
{
    if ws.len() == 0 {
        Seq::empty()
    } else {
        words_le(ws.drop_last()) + le32(ws.last())
    }
}

/// Reading a number back from its bytes gives that number.
pub proof fn law_le32_round_trip(x: u32)
    ensures
        of_le32(le32(x)[0], le32(x)[1], le32(x)[2], le32(x)[3]) == x,
{
    let b0 = (x & 0xff) as u8;
    let b1 = ((x >> 8u32) & 0xff) as u8;
    let b2 = ((x >> 16u32) & 0xff) as u8;
    let b3 = ((x >> 24u32) & 0xff) as u8;
    assert((b0 as u32) | ((b1 as u32) << 8u32) | ((b2 as u32) << 16u32) | ((b3 as u32) << 24u32)
        == x) by (bit_vector)
        requires
            b0 == (x & 0xff) as u8,
            b1 == ((x >> 8u32) & 0xff) as u8,
            b2 == ((x >> 16u32) & 0xff) as u8,
            b3 == ((x >> 24u32) & 0xff) as u8,
    ;
}

/// Reading a list of numbers back from its bytes gives that list.
pub proof fn law_words_round_trip(ws: Seq<u32>)
    ensures
        words_le(ws).len() == 4 * ws.len(),
        forall|i: int| 0 <= i < ws.len() ==> #[trigger] word_at(words_le(ws), i) == ws[i],
    decreases ws.len(),
{
    if ws.len() > 0 {
        let p = ws.drop_last();
        law_words_round_trip(p);
        law_le32_round_trip(ws.last());
        let b = words_le(ws);
        let n = p.len() as int;
        assert forall|i: int| 0 <= i < ws.len() implies #[trigger] word_at(b, i) == ws[i] by {
            if i < n {
                assert(word_at(words_le(p), i) == p[i]);
            } else {
                assert(b[4 * n] == le32(ws.last())[0]);
                assert(b[4 * n + 1] == le32(ws.last())[1]);
                assert(b[4 * n + 2] == le32(ws.last())[2]);
                assert(b[4 * n + 3] == le32(ws.last())[3]);
            }
        }
    }
}

/// Encodes a list of numbers.
pub fn encode_words(ws: &Vec<u32>) -> (r: Vec<u8>)
    ensures
        r@ == words_le(ws@),
{
    let mut out: Vec<u8> = Vec::new();
    let mut i: usize = 0;
    while i < ws.len()
        invariant
            i <= ws@.len(),
            out@ == words_le(ws@.take(i as int)),
        decreases ws@.len() - i,
    {
        let x: u32 = ws[i];
        let ghost before = out@;
        out.push((x & 0xff) as u8);
        out.push(((x >> 8u32) & 0xff) as u8);
        out.push(((x >> 16u32) & 0xff) as u8);
        out.push(((x >> 24u32) & 0xff) as u8);
        proof {
            let t = ws@.take(i + 1);
            assert(t.drop_last() =~= ws@.take(i as int));
            assert(out@ =~= before + le32(x));
        }
        i = i + 1;
    }
    proof {
        assert(ws@.take(i as int) =~= ws@);
    }
    out
}

/// Decodes `count` numbers.
pub fn decode_words(b: &Vec<u8>, count: u64) -> (r: Vec<u32>)
    requires
        b@.len() == 4 * count,
    ensures
        r@ == Seq::new(count as nat, |i: int| word_at(b@, i)),
{
    let mut out: Vec<u32> = Vec::new();
    let mut i: u64 = 0;
    while i < count
        invariant
            i <= count,
            b.len() == 4 * count,
            out@ == Seq::new(i as nat, |j: int| word_at(b@, j)),
        decreases count - i,
    {
        let k: usize = (4 * i) as usize;
        let w: u32 = (b[k] as u32) | ((b[k + 1] as u32) << 8u32) | ((b[k + 2] as u32) << 16u32) | ((
        b[k + 3] as u32) << 24u32);
        out.push(w);
        proof {
            assert(w == word_at(b@, i as int));
            assert(out@ =~= Seq::new((i + 1) as nat, |j: int| word_at(b@, j)));
        }
        i = i + 1;
    }
    out
}

/// A copy of a byte string.
pub fn copy_bytes(b: &Vec<u8>) -> (r: Vec<u8>)
    ensures
        r@ == b@,
{
    let mut out: Vec<u8> = Vec::new();
    let mut i: usize = 0;
    while i < b.len()
        invariant
            i <= b@.len(),
            out@ == b@.take(i as int),
        decreases b@.len() - i,
    {
        out.push(b[i]);
        proof {
            assert(b@.take(i + 1) =~= b@.take(i as int).push(b@[i as int]));
        }
        i = i + 1;
    }
    proof {
        assert(b@.take(i as int) =~= b@);
    }
    out
}

/// An address lies on the page that begins at or below it, by less than a page.
pub proof fn law_an_address_lies_on_its_page(va: int)
    requires
        va >= 0,
    ensures
        page_base(va) % 4096 == 0,
        page_base(va) <= va < page_base(va) + 4096,
{
}

/// The bytes at an address are those of the pages, one after another: byte `i` is
/// that of address `va + i`, on the page of that address.
pub proof fn law_bytes_follow_the_pages(m: Map<u64, PageView>, va: int, len: int, i: int)
    requires
        0 <= va,
        0 <= i < len,
    ensures
        bytes_at(m, va, len).len() == len,
        bytes_at(m, va, len)[i] == m[(va + i - (va + i) % 4096) as u64].bytes[(va + i) % 4096],
{
}

/// A range is mapped exactly if every page of it is.
pub proof fn law_a_range_is_mapped_page_by_page(m: Map<u64, PageView>, va: int, len: int, a: int)
    requires
        range_mapped(m, va, len),
        va <= a < va + len,
    ensures
        m.contains_key((a - a % 4096) as u64),
{
    assert(m.contains_key(page_base(a) as u64));
}

/// A string is what the caller has there, if all of it is mapped and it is text;
/// it is refused with 14 exactly if not all is mapped, and else with 22.
pub proof fn law_a_string_is_read_as_it_is(m: Map<u64, PageView>, va: int, len: int)
    ensures
        ({
            let r = user_string(m, va, len);
            &&& refused(r, 14) <==> !range_mapped(m, va, len)
            &&& r matches Ok(s) ==> s == bytes_at(m, va, len) && valid_utf8(s)
            &&& refused(r, 22) <==> range_mapped(m, va, len) && !valid_utf8(bytes_at(m, va, len))
        }),
{
}

/// A place in user memory is the place on its page in the frame behind it. It is
/// refused with 14 beyond the user's half or where nothing is mapped, and with 22
/// where it would cross into another page.
pub proof fn law_a_place_is_in_the_frame_behind_it(
    m: Map<u64, PageView>,
    va: u64,
    len: u64,
    end: u64,
)
    ensures
        ({
            let r = user_page(m, va, len, end);
            let page = (va - va % 4096) as u64;
            &&& r matches Ok((pa, off)) ==> m.contains_key(page) && pa == m[page].pa && off == va
                % 4096 && off + len <= 4096 && va + len <= end
            &&& va + len <= end && va % 4096 + len <= 4096 && m.contains_key(page) ==> r is Ok
            &&& va + len > end ==> refused(r, 14)
            &&& va + len <= end && va % 4096 + len > 4096 ==> refused(r, 22)
            &&& va + len <= end && va % 4096 + len <= 4096 && !m.contains_key(page) ==> refused(r, 14)
        }),
        ({
            let page = (va - va % 4096) as u64;
            &&& page_dst(m, va) matches Ok((pa, off)) ==> m.contains_key(page) && pa == m[page].pa
                && off == va % 4096
            &&& page_dst(m, va) is Ok <==> m.contains_key(page)
            &&& page_dst(m, va) is Err ==> refused(page_dst(m, va), 14)
        }),
{
}

/// Words are stored low byte first.
pub proof fn law_words_are_little_endian(b0: u8, b1: u8, b2: u8, b3: u8)
    ensures
        of_le32(b0, b1, b2, b3) == b0 + 256 * b1 + 65536 * b2 + 16777216 * b3,
{
    assert(((b0 as u32) | ((b1 as u32) << 8u32) | ((b2 as u32) << 16u32) | ((b3 as u32) << 24u32))
        == (b0 as u32) + 256 * (b1 as u32) + 65536 * (b2 as u32) + 16777216 * (b3 as u32))
        by (bit_vector);
}

/// A range is mapped whenever each page it touches is, and a range of no
/// bytes always is.
pub proof fn law_a_range_needs_only_its_pages(m: Map<u64, PageView>, va: int, len: int)
    requires
        va >= 0,
        forall|p: int|
            p % 4096 == 0 && va - 4096 < p < va + len ==> #[trigger] m.contains_key(p as u64),
    ensures
        range_mapped(m, va, len),
        range_mapped(Map::<u64, PageView>::empty(), va, 0),
{
    assert forall|a: int| #![trigger page_base(a)] va <= a < va + len implies m.contains_key(
        page_base(a) as u64,
    ) by {
        assert(page_base(a) % 4096 == 0);
        assert(va - 4096 < page_base(a) < va + len);
    }
}

/// A string is handed over whenever it is mapped and legible.
pub proof fn law_a_legible_string_is_read(m: Map<u64, PageView>, va: int, len: int)
    requires
        range_mapped(m, va, len),
        valid_utf8(bytes_at(m, va, len)),
    ensures
        user_string(m, va, len) == Ok::<Seq<u8>, i64>(bytes_at(m, va, len)),
{
}

/// Numbers in a byte string lie one behind the other, four bytes each.
pub proof fn law_words_lie_one_behind_the_other(b: Seq<u8>, i: int)
    requires
        0 <= i,
        4 * i + 4 <= b.len(),
    ensures
        word_at(b, i) == b[4 * i] + 256 * b[4 * i + 1] + 65536 * b[4 * i + 2] + 16777216 * b[4 * i
            + 3],
{
    law_words_are_little_endian(b[4 * i], b[4 * i + 1], b[4 * i + 2], b[4 * i + 3]);
}

} // verus!
