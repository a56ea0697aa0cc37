//! Argument and environment pages of a new process.
//!
//! A blob starts with a header whose first word counts the strings, holds one
//! offset per string, and then the strings. The page that the process sees is
//! the blob with each offset turned into an address.

#[allow(unused_imports)]
use crate::uspace::of_le32;
use crate::memops::MappingPlan;
use crate::orbit::{Effect, Orbit};
use crate::orbital_elf::copy_range;
use crate::process::{shared_frames, PhysBacking};
#[allow(unused_imports)]
use crate::process::shared_want;
#[allow(unused_imports)]
use crate::world::ProcView;
use crate::world::Machine;
use vstd::bytes::{u64_from_le_bytes, u64_to_le_bytes};
#[allow(unused_imports)]
use vstd::bytes::{spec_u64_from_le_bytes, spec_u64_to_le_bytes};
use vstd::prelude::*;

verus! {

broadcast use {vstd::laws_cmp::group_laws_cmp, vstd::std_specs::btree::group_btree_axioms};

/// Where a blob's parts are.
#[derive(Clone, Copy, Debug, PartialEq, Eq, Structural)]
pub struct BlobLayout {
    /// Size of the header.
    pub header: u64,
    /// Where the offsets start.
    pub offsets: u64,
}

impl BlobLayout {
    /// The count is inside the header and the header inside a page.
    pub open spec fn wf(self) -> bool {
        4 <= self.header <= 4096 && self.offsets <= 4096
    }
}

/// Number of strings in a blob.
pub open spec fn string_count(blob: Seq<u8>) -> u32 {
    of_le32(blob[0], blob[1], blob[2], blob[3])
}

/// The blob fits a page and has room for its offsets.
pub open spec fn blob_ok(blob: Seq<u8>, l: BlobLayout) -> bool {
    &&& l.header <= blob.len() <= 4096
    &&& l.offsets + 8 * string_count(blob) <= blob.len()
}

/// The offset of string `i`.
pub open spec fn string_offset(blob: Seq<u8>, l: BlobLayout, i: int) -> u64 {
    spec_u64_from_le_bytes(blob.subrange(l.offsets + 8 * i, l.offsets + 8 * i + 8))
}

/// Every offset lies inside the blob.
pub open spec fn offsets_ok(blob: Seq<u8>, l: BlobLayout) -> bool {
    forall|i: int|
        0 <= i < string_count(blob) ==> #[trigger] string_offset(blob, l, i) < blob.len()
}

/// The addresses of the first `n` strings as bytes.
pub open spec fn address_bytes(blob: Seq<u8>, l: BlobLayout, va: u64, n: int) -> Seq<u8>
    decreases n,
{
    if n <= 0 {
        Seq::empty()
    } else {
        address_bytes(blob, l, va, n - 1) + spec_u64_to_le_bytes(
            vstd::wrapping::u64_specs::wrapping_add(va, string_offset(blob, l, n - 1)),
        )
    }
}

/// The page that the process sees at `va`.
pub open spec fn blob_page(blob: Seq<u8>, l: BlobLayout, va: u64) -> Seq<u8> {
    let n = string_count(blob) as int;
    blob.take(l.offsets as int) + address_bytes(blob, l, va, n) + blob.skip(l.offsets + 8 * n)
        + Seq::new((4096 - blob.len()) as nat, |i: int| 0u8)
}

/// Whether a blob is worth a page.
pub fn check_blob(blob: &[u8], l: BlobLayout) -> (r: bool)
    requires
        l.wf(),
    ensures
        r == blob_ok(blob@, l),
{
    let len: u64 = blob.len() as u64;
    if len > 4096 || len < l.header {
        return false;
    }
    let argc: u32 = (blob[0] as u32) | ((blob[1] as u32) << 8u32) | ((blob[2] as u32) << 16u32) | ((
    blob[3] as u32) << 24u32);
    l.offsets + 8 * argc as u64 <= len
}

/// The page for a blob; `None` if an offset points outside it.
pub fn make_page(blob: &[u8], l: BlobLayout, va: u64) -> (r: Option<Vec<u8>>)
    requires
        l.wf(),
        blob_ok(blob@, l),
    ensures
        r is Some <==> offsets_ok(blob@, l),
        r matches Some(p) ==> p@ == blob_page(blob@, l, va) && p@.len() == 4096,
{
    let argc: u32 = (blob[0] as u32) | ((blob[1] as u32) << 8u32) | ((blob[2] as u32) << 16u32) | ((
    blob[3] as u32) << 24u32);
    let off0: usize = l.offsets as usize;
    let n: usize = argc as usize;
    let mut out: Vec<u8> = copy_range(blob, 0, off0);
    let ghost head = out@;
    proof {
        assert(head =~= blob@.take(off0 as int));
        assert(out@ =~= head + address_bytes(blob@, l, va, 0));
    }
    let mut i: usize = 0;
    while i < n
        invariant
            i <= n,
            n == string_count(blob@),
            off0 == l.offsets,
            l.wf(),
            blob_ok(blob@, l),
            head == blob@.take(off0 as int),
            out@ == head + address_bytes(blob@, l, va, i as int),
            address_bytes(blob@, l, va, i as int).len() == 8 * i,
            forall|j: int| 0 <= j < i ==> #[trigger] string_offset(blob@, l, j) < blob@.len(),
        decreases n - i,
    {
        let at: usize = off0 + 8 * i;
        let word: Vec<u8> = copy_range(blob, at, at + 8);
        let off: u64 = u64_from_le_bytes(word.as_slice());
        proof {
            assert(off == string_offset(blob@, l, i as int));
        }
        if off >= blob.len() as u64 {
            return None;
        }
        let b: Vec<u8> = u64_to_le_bytes(va.wrapping_add(off));
        let ghost before = out@;
        push_all(&mut out, &b);
        proof {
            assert(out@ =~= head + address_bytes(blob@, l, va, i + 1));
        }
        i = i + 1;
    }
    let rest: Vec<u8> = copy_range(blob, off0 + 8 * n, blob.len());
    push_all(&mut out, &rest);
    let ghost body = out@;
    proof {
        assert(rest@ =~= blob@.skip(l.offsets + 8 * n));
        assert(body =~= blob@.take(l.offsets as int) + address_bytes(blob@, l, va, n as int)
            + blob@.skip(l.offsets + 8 * n));
        assert(body.len() == blob@.len());
    }
    while out.len() < 4096
        invariant
            body.len() <= out@.len() <= 4096,
            body.len() == blob@.len(),
            out@ == body + Seq::new((out@.len() - body.len()) as nat, |i: int| 0u8),
        decreases 4096 - out@.len(),
    {
        out.push(0);
        proof {
            assert(out@ =~= body + Seq::new((out@.len() - body.len()) as nat, |i: int| 0u8));
        }
    }
    Some(out)
}

fn push_all(out: &mut Vec<u8>, more: &Vec<u8>)
    ensures
        final(out)@ == old(out)@ + more@,
{
    let mut i: usize = 0;
    proof {
        assert(out@ =~= old(out)@ + more@.take(0));
    }
    while i < more.len()
        invariant
            i <= more@.len(),
            out@ == old(out)@ + more@.take(i as int),
        decreases more@.len() - i,
    {
        out.push(more[i]);
        proof {
            assert(out@ =~= old(out)@ + more@.take(i + 1));
        }
        i = i + 1;
    }
    proof {
        assert(more@.take(i as int) =~= more@);
    }
}

/// Which page a blob becomes.
#[derive(Clone, Copy, Debug, PartialEq, Eq, Structural)]
pub enum BlobKind {
    Argv,
    Envp,
}

/// The frame of a page.
pub open spec fn page_backing(pa: u64) -> PhysBacking {
    shared_want(4096).at(pa)
}

/// What becomes of a blob. `page` is what the allocator gave and `mapped`
/// whether the page could be mapped.
pub enum BlobFate {
    Installed(PhysBacking),
    /// Refused; the page goes back if there was one.
    Refused(Option<PhysBacking>),
    /// The process is gone and the page stays taken.
    Orphaned,
}

pub open spec fn blob_fate(
    blob: Seq<u8>,
    l: BlobLayout,
    page: Option<u64>,
    alive: bool,
    mapped: bool,
) -> BlobFate {
    if !blob_ok(blob, l) {
        BlobFate::Refused(None)
    } else {
        match page {
            None => BlobFate::Refused(None),
            Some(pa) => if !offsets_ok(blob, l) {
                BlobFate::Refused(Some(page_backing(pa)))
            } else if !alive {
                BlobFate::Orphaned
            } else if !mapped {
                BlobFate::Refused(Some(page_backing(pa)))
            } else {
                BlobFate::Installed(page_backing(pa))
            },
        }
    }
}

impl Orbit {
    /// Address that a kind of page has.
    pub fn blob_va(&self, kind: BlobKind) -> (r: u64)
        ensures
            r == (match kind {
                BlobKind::Argv => self.abi.argv_base,
                BlobKind::Envp => self.abi.envp_base,
            }),
    {
        match kind {
            BlobKind::Argv => self.abi.argv_base,
            BlobKind::Envp => self.abi.envp_base,
        }
    }

    /// The mapping of such a page: the user may read it.
    pub fn blob_plan(&self, kind: BlobKind) -> (r: MappingPlan)
        ensures
            r == (MappingPlan {
                va: match kind {
                    BlobKind::Argv => self.abi.argv_base,
                    BlobKind::Envp => self.abi.envp_base,
                },
                len: 4096,
                page_size: 4096,
                levels: 4,
                perms: self.abi.page.r | self.abi.page.u,
                revocable: false,
            }),
    {
        MappingPlan {
            va: self.blob_va(kind),
            len: 4096,
            page_size: 4096,
            levels: 4,
            perms: self.abi.page.r | self.abi.page.u,
            revocable: false,
        }
    }

    /// Gives a process its argument or environment page, as far as the
    /// allocator and the mapper went along. [`check_blob`] says whether to ask
    /// the allocator and [`make_page`] what goes on the page.
    pub fn install_blob(
        &mut self,
        m: &mut Machine,
        pid: u16,
        kind: BlobKind,
        blob: &[u8],
        page: Option<u64>,
        mapped: bool,
    ) -> (r: Result<(), ()>)
        requires
            old(self).abi.blob.wf(),
        ensures
            match blob_fate(
                blob@,
                old(self).abi.blob,
                page,
                old(self).procs().contains_key(pid),
                mapped,
            ) {
                BlobFate::Installed(b) => {
                    let p = old(self).procs()[pid];
                    let va = match kind {
                        BlobKind::Argv => old(self).abi.argv_base,
                        BlobKind::Envp => old(self).abi.envp_base,
                    };
                    &&& r is Ok
                    &&& final(self).procs() == old(self).procs().insert(
                        pid,
                        match kind {
                            BlobKind::Argv => ProcView { argv_blob: Some(b), ..p },
                            BlobKind::Envp => ProcView { envp_blob: Some(b), ..p },
                        },
                    )
                    &&& final(m).effects@ == old(m).effects@.push(
                        Effect::Fence { asid: pid, va },
                    ).push(Effect::Broadcast)
                },
                BlobFate::Refused(f) => r is Err && final(self).procs() == old(self).procs()
                    && final(m).effects@ == old(m).effects@ + crate::teardown::free_opt(f),
                BlobFate::Orphaned => r is Err && final(self).procs() == old(self).procs()
                    && final(m).effects@ == old(m).effects@,
            },
            *final(self) == (Orbit { processes: final(self).processes, ..*old(self) }),
            *final(m) == (Machine { effects: final(m).effects, ..*old(m) }),
    {
        let l: BlobLayout = self.abi.blob;
        proof {
            assert(m.effects@ + Seq::<Effect>::empty() =~= m.effects@);
        }
        if !check_blob(blob, l) {
            return Err(());
        }
        let pa: u64 = match page {
            Some(pa) => pa,
            None => {
                return Err(());
            },
        };
        let backing = shared_frames(4096).granted(pa);
        let va: u64 = self.blob_va(kind);
        if make_page(blob, l, va).is_none() {
            m.effects.push(Effect::Free(backing));
            proof {
                assert(m.effects@ =~= old(m).effects@ + seq![Effect::Free(backing)]);
            }
            return Err(());
        }
        if !self.processes.contains_key(&pid) {
            return Err(());
        }
        if !mapped {
            m.effects.push(Effect::Free(backing));
            proof {
                assert(m.effects@ =~= old(m).effects@ + seq![Effect::Free(backing)]);
            }
            return Err(());
        }
        let mut p = self.processes.remove(&pid).unwrap();
        match kind {
            BlobKind::Argv => {
                p.argv_blob = Some(backing);
            },
            BlobKind::Envp => {
                p.envp_blob = Some(backing);
            },
        }
        let ghost n = p;
        let _ = self.processes.insert(pid, p);
        m.effects.push(Effect::Fence { asid: pid, va });
        m.effects.push(Effect::Broadcast);
        proof {
            assert(self.procs() =~= old(self).procs().insert(pid, n@));
        }
        Ok(())
    }

    /// Whether a process has an argument page.
    pub fn process_has_argv(&self, pid: u16) -> (r: bool)
        ensures
            r == (self.procs().contains_key(pid) && self.procs()[pid].argv_blob is Some),
    {
        match self.processes.get(&pid) {
            Some(p) => p.argv_blob.is_some(),
            None => false,
        }
    }

    /// Whether a process has an environment page.
    pub fn process_has_envp(&self, pid: u16) -> (r: bool)
        ensures
            r == (self.procs().contains_key(pid) && self.procs()[pid].envp_blob is Some),
    {
        match self.processes.get(&pid) {
            Some(p) => p.envp_blob.is_some(),
            None => false,
        }
    }

    /// `argv_envp`: where the two pages are; zero for a page that is not
    /// there.
    pub fn handle_argv_envp(&self, pid: u16) -> (r: (u64, u64))
        ensures
            r.0 == (if self.procs().contains_key(pid) && self.procs()[pid].argv_blob is Some {
                self.abi.argv_base
            } else {
                0
            }),
            r.1 == (if self.procs().contains_key(pid) && self.procs()[pid].envp_blob is Some {
                self.abi.envp_base
            } else {
                0
            }),
    {
        let a: u64 = if self.process_has_argv(pid) {
            self.abi.argv_base
        } else {
            0
        };
        let e: u64 = if self.process_has_envp(pid) {
            self.abi.envp_base
        } else {
            0
        };
        (a, e)
    }
}

proof fn lemma_address_len(blob: Seq<u8>, l: BlobLayout, va: u64, n: int)
    requires
        n >= 0,
    ensures
        address_bytes(blob, l, va, n).len() == 8 * n,
    decreases n,
{
    vstd::bytes::lemma_auto_spec_u64_to_from_le_bytes();
    if n > 0 {
        lemma_address_len(blob, l, va, n - 1);
    }
}

proof fn lemma_address_at(blob: Seq<u8>, l: BlobLayout, va: u64, n: int, i: int)
    requires
        0 <= i < n,
    ensures
        address_bytes(blob, l, va, n).subrange(8 * i, 8 * i + 8) == spec_u64_to_le_bytes(
            vstd::wrapping::u64_specs::wrapping_add(va, string_offset(blob, l, i)),
        ),
    decreases n,
{
    vstd::bytes::lemma_auto_spec_u64_to_from_le_bytes();
    lemma_address_len(blob, l, va, n);
    lemma_address_len(blob, l, va, n - 1);
    let w = spec_u64_to_le_bytes(
        vstd::wrapping::u64_specs::wrapping_add(va, string_offset(blob, l, n - 1)),
    );
    if i == n - 1 {
        assert(address_bytes(blob, l, va, n).subrange(8 * i, 8 * i + 8) =~= w);
    } else {
        lemma_address_at(blob, l, va, n - 1, i);
        assert(address_bytes(blob, l, va, n).subrange(8 * i, 8 * i + 8) =~= address_bytes(
            blob,
            l,
            va,
            n - 1,
        ).subrange(8 * i, 8 * i + 8));
    }
}

/// On the page, slot `i` holds the address of string `i`, and everything else
/// is as in the blob with zeros behind it.
pub proof fn law_page_slots_hold_addresses(blob: Seq<u8>, l: BlobLayout, va: u64, i: int)
    requires
        l.wf(),
        blob_ok(blob, l),
        0 <= i < string_count(blob),
    ensures
        blob_page(blob, l, va).len() == 4096,
        string_offset(blob_page(blob, l, va), l, i) == vstd::wrapping::u64_specs::wrapping_add(
            va,
            string_offset(blob, l, i),
        ),
        forall|k: int|
            0 <= k < blob.len() && !(l.offsets <= k < l.offsets + 8 * string_count(blob))
                ==> #[trigger] blob_page(blob, l, va)[k] == blob[k],
        forall|k: int| blob.len() <= k < 4096 ==> #[trigger] blob_page(blob, l, va)[k] == 0,
{
    vstd::bytes::lemma_auto_spec_u64_to_from_le_bytes();
    let n = string_count(blob) as int;
    lemma_address_len(blob, l, va, n);
    lemma_address_at(blob, l, va, n, i);
    let p = blob_page(blob, l, va);
    assert(p.subrange(l.offsets + 8 * i, l.offsets + 8 * i + 8) =~= address_bytes(
        blob,
        l,
        va,
        n,
    ).subrange(8 * i, 8 * i + 8));
}

/// Arguments are taken exactly if their page could be had and mapped for a
/// process that is alive, they fit a page and every string begins in them.
/// Otherwise the page goes back, unless its process went with it.
pub proof fn law_arguments_are_installed_or_refused(
    blob: Seq<u8>,
    l: BlobLayout,
    page: Option<u64>,
    alive: bool,
    mapped: bool,
)
    ensures
        ({
            let sound = l.header <= blob.len() <= 4096 && l.offsets + 8 * string_count(blob)
                <= blob.len() && forall|i: int|
                0 <= i < string_count(blob) ==> #[trigger] string_offset(blob, l, i) < blob.len();
            let f = blob_fate(blob, l, page, alive, mapped);
            &&& f is Installed <==> sound && page is Some && alive && mapped
            &&& f matches BlobFate::Installed(b) ==> b.pa == page->0 && b.size == 4096
            &&& f matches BlobFate::Refused(Some(b)) ==> b.pa == page->0 && b.size == 4096
            &&& f is Orphaned ==> sound && page is Some && !alive
            &&& f is Refused && page is Some && sound ==> !mapped && f->Refused_0 is Some
        }),
{
}

/// The page taken for arguments goes back where they cannot be installed,
/// except where the process has gone meanwhile; without a page there is
/// nothing to give back. It is a shared page.
pub proof fn law_an_argument_page_is_used_or_given_back(
    blob: Seq<u8>,
    l: BlobLayout,
    page: Option<u64>,
    alive: bool,
    mapped: bool,
)
    ensures
        ({
            let f = blob_fate(blob, l, page, alive, mapped);
            let fits = blob_ok(blob, l);
            let sound = offsets_ok(blob, l);
            &&& !fits || page is None ==> f == BlobFate::Refused(None)
            &&& fits && page is Some && sound && !alive ==> f is Orphaned
            &&& fits && page is Some && (!sound || (alive && !mapped)) ==> (f
                matches BlobFate::Refused(Some(b)) && b.pa == page->0)
            &&& f matches BlobFate::Installed(b) ==> b.pool == crate::process::Pool::Shared
                && b.align == 4096
            &&& f matches BlobFate::Refused(Some(b)) ==> b.pool == crate::process::Pool::Shared
                && b.align == 4096
        }),
{
}

} // verus!
