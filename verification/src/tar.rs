//! Read-only filesystem on a ustar archive.

use crate::fs::{FsErr, Inode, Stat, STAT_BLOCK_UNIT, S_IFDIR, S_IFREG};
use crate::uspace::utf8_ok;
use vstd::prelude::*;
#[allow(unused_imports)]
use vstd::utf8::valid_utf8;

verus! {

/// Bytes per device sector, and per archive block.
pub const SECTOR_SIZE: usize = 512;

const HEADER_NAME_LEN: usize = 100;

const HEADER_MODE_OFFSET: usize = 100;

const HEADER_MODE_LEN: usize = 8;

const HEADER_UID_OFFSET: usize = 108;

const HEADER_UID_LEN: usize = 8;

const HEADER_GID_OFFSET: usize = 116;

const HEADER_GID_LEN: usize = 8;

const HEADER_SIZE_OFFSET: usize = 124;

const HEADER_SIZE_LEN: usize = 12;

const HEADER_MTIME_OFFSET: usize = 136;

const HEADER_MTIME_LEN: usize = 12;

const HEADER_TYPEFLAG_OFFSET: usize = 156;

const HEADER_MAGIC_OFFSET: usize = 257;

const HEADER_PREFIX_OFFSET: usize = 345;

const HEADER_PREFIX_LEN: usize = 155;

/// What an archive entry is.
#[derive(Clone, Copy, Debug, PartialEq, Eq, Structural)]
pub enum Kind {
    Reg,
    Dir,
}

/// One file or directory of the archive.
pub struct TarInode {
    pub path: Vec<u8>,
    pub kind: Kind,
    /// First data sector. Zero for directories.
    pub data_sector: u64,
    pub size: u64,
    /// The low 12 mode bits.
    pub mode_perms: u32,
    pub uid: u32,
    pub gid: u32,
    pub mtime: i64,
}

/// What an archive entry says.
#[verifier::ext_equal]
pub struct TarEntry {
    pub path: Seq<u8>,
    pub kind: Kind,
    pub data_sector: u64,
    pub size: u64,
    pub mode_perms: u32,
    pub uid: u32,
    pub gid: u32,
    pub mtime: i64,
}

impl View for TarInode {
    type V = TarEntry;

    open spec fn view(&self) -> TarEntry {
        TarEntry {
            path: self.path@,
            kind: self.kind,
            data_sector: self.data_sector,
            size: self.size,
            mode_perms: self.mode_perms,
            uid: self.uid,
            gid: self.gid,
            mtime: self.mtime,
        }
    }
}

/// Why an archive could not be mounted.
#[derive(Clone, Copy, Debug, PartialEq, Eq, Structural)]
pub enum MountErr {
    BadHeader { lba: u64 },
    BadMagic { lba: u64 },
}

/// Eight to the power `n`.
pub open spec fn pow8(n: int) -> int
    decreases n,
{
    if n <= 0 {
        1
    } else {
        8 * pow8(n - 1)
    }
}

/// Value of an octal field from position `i` on, with `acc` read so far.
/// Padding (space or NUL) is skipped before the first digit and ends the
/// number after it. `None` on any other byte, or when the value outgrows 64
/// bits.
pub open spec fn octal_from(s: Seq<u8>, i: int, acc: int, saw_digit: bool) -> Option<u64>
    decreases s.len() - i,
{
    if i >= s.len() {
        Some(acc as u64)
    } else if s[i] == 0x20 || s[i] == 0 {
        if saw_digit {
            Some(acc as u64)
        } else {
            octal_from(s, i + 1, acc, saw_digit)
        }
    } else if 0x30 <= s[i] <= 0x37 {
        if acc * 8 + (s[i] - 0x30) > u64::MAX {
            None
        } else {
            octal_from(s, i + 1, acc * 8 + (s[i] - 0x30), true)
        }
    } else {
        None
    }
}

/// Value of an octal field.
pub open spec fn octal(s: Seq<u8>) -> Option<u64> {
    octal_from(s, 0, 0, false)
}

/// Parses an octal field of at most 20 digits.
pub fn parse_octal(bytes: &[u8]) -> (r: Option<u64>)
    ensures
        r == octal(bytes@),
        r matches Some(v) ==> v < pow8(bytes@.len() as int),
{
    let mut acc: u64 = 0;
    let mut saw_digit: bool = false;
    let mut i: usize = 0;
    while i < bytes.len()
        invariant
            i <= bytes@.len(),
            octal(bytes@) == octal_from(bytes@, i as int, acc as int, saw_digit),
            acc < pow8(i as int),
        decreases bytes@.len() - i,
    {
        let b: u8 = bytes[i];
        if b == 0x20 || b == 0 {
            if saw_digit {
                proof {
                    lemma_pow8_grows(i as int, bytes@.len() as int);
                }
                return Some(acc);
            }
        } else if 0x30 <= b && b <= 0x37 {
            let d: u64 = (b - 0x30) as u64;
            match acc.checked_mul(8) {
                None => {
                    return None;
                },
                Some(m) => match m.checked_add(d) {
                    None => {
                        return None;
                    },
                    Some(n) => {
                        acc = n;
                    },
                },
            }
            saw_digit = true;
        } else {
            return None;
        }
        proof {
            assert(pow8(i + 1) == 8 * pow8(i as int));
        }
        i = i + 1;
    }
    Some(acc)
}

proof fn lemma_pow8_grows(a: int, b: int)
    requires
        0 <= a <= b,
    ensures
        0 < pow8(a) <= pow8(b),
    decreases b,
{
    if b > 0 {
        if a < b {
            lemma_pow8_grows(a, b - 1);
        } else {
            lemma_pow8_grows(a - 1, b - 1);
        }
    }
}

/// Position of the first NUL, or the length.
pub open spec fn nul_at(s: Seq<u8>, i: int) -> int
    decreases s.len() - i,
{
    if i >= s.len() || s[i] == 0 {
        i
    } else {
        nul_at(s, i + 1)
    }
}

/// The string in a NUL-terminated field; empty if it is not UTF-8.
pub open spec fn field_str(s: Seq<u8>) -> Seq<u8> {
    let t = s.take(nul_at(s, 0));
    if valid_utf8(t) {
        t
    } else {
        Seq::empty()
    }
}

/// Reads a NUL-terminated field.
pub fn nt_str(slice: &[u8]) -> (r: Vec<u8>)
    ensures
        r@ == field_str(slice@),
{
    let mut out: Vec<u8> = Vec::new();
    let mut i: usize = 0;
    while i < slice.len() && slice[i] != 0
        invariant
            i <= slice@.len(),
            out@ == slice@.take(i as int),
            nul_at(slice@, 0) == nul_at(slice@, i as int),
        decreases slice@.len() - i,
    {
        out.push(slice[i]);
        proof {
            assert(slice@.take(i + 1) =~= slice@.take(i as int).push(slice@[i as int]));
        }
        i = i + 1;
    }
    if utf8_ok(out.as_slice()) {
        out
    } else {
        Vec::new()
    }
}

/// `prefix` and `name` joined with one slash between them.
pub open spec fn joined_path(prefix: Seq<u8>, name: Seq<u8>) -> Seq<u8> {
    if prefix.len() == 0 {
        name
    } else if prefix.last() == 0x2f {
        prefix + name
    } else {
        prefix + seq![0x2fu8] + name
    }
}

/// `s` without its trailing slashes.
pub open spec fn trimmed(s: Seq<u8>) -> Seq<u8>
    decreases s.len(),
{
    if s.len() > 0 && s.last() == 0x2f {
        trimmed(s.drop_last())
    } else {
        s
    }
}

/// The absolute lookup key of an entry: a leading `./` and trailing slashes
/// are dropped; the archive root is the empty string.
pub open spec fn canonical(prefix: Seq<u8>, name: Seq<u8>) -> Seq<u8> {
    let j = joined_path(prefix, name);
    if j == seq![0x2eu8] {
        Seq::empty()
    } else {
        let s = if j.len() >= 2 && j[0] == 0x2e && j[1] == 0x2f {
            j.skip(2)
        } else {
            j
        };
        let t = trimmed(s);
        if t.len() == 0 {
            Seq::empty()
        } else {
            seq![0x2fu8] + t
        }
    }
}

fn push_all(out: &mut Vec<u8>, bytes: &Vec<u8>, from: usize, to: usize)
    requires
        from <= to <= bytes@.len(),
    ensures
        final(out)@ == old(out)@ + bytes@.subrange(from as int, to as int),
{
    let mut i: usize = from;
    while i < to
        invariant
            from <= i <= to <= bytes@.len(),
            out@ == old(out)@ + bytes@.subrange(from as int, i as int),
        decreases to - i,
    {
        out.push(bytes[i]);
        proof {
            assert(bytes@.subrange(from as int, i + 1) =~= bytes@.subrange(
                from as int,
                i as int,
            ).push(bytes@[i as int]));
            assert(out@ =~= old(out)@ + bytes@.subrange(from as int, i + 1));
        }
        i = i + 1;
    }
    proof {
        assert(bytes@.subrange(from as int, i as int) == bytes@.subrange(from as int, to as int));
    }
}

fn join_path(prefix: &Vec<u8>, name: &Vec<u8>) -> (r: Vec<u8>)
    ensures
        r@ == joined_path(prefix@, name@),
{
    let mut joined: Vec<u8> = Vec::new();
    if prefix.len() > 0 {
        push_all(&mut joined, prefix, 0, prefix.len());
        if prefix[prefix.len() - 1] != 0x2f {
            joined.push(0x2f);
        }
    }
    push_all(&mut joined, name, 0, name.len());
    proof {
        assert(prefix@.subrange(0, prefix@.len() as int) =~= prefix@);
        assert(name@.subrange(0, name@.len() as int) =~= name@);
        assert(joined@ =~= joined_path(prefix@, name@));
    }
    joined
}

/// Where `s`, from `from` on, ends without its trailing slashes.
fn trimmed_end(s: &Vec<u8>, from: usize) -> (r: usize)
    requires
        from <= s@.len(),
    ensures
        from <= r <= s@.len(),
        trimmed(s@.skip(from as int)) == s@.subrange(from as int, r as int),
{
    let mut to: usize = s.len();
    proof {
        assert(s@.skip(from as int) =~= s@.subrange(from as int, to as int));
    }
    while to > from && s[to - 1] == 0x2f
        invariant
            from <= to <= s@.len(),
            trimmed(s@.skip(from as int)) == trimmed(s@.subrange(from as int, to as int)),
        decreases to - from,
    {
        proof {
            let c = s@.subrange(from as int, to as int);
            assert(c.drop_last() =~= s@.subrange(from as int, to - 1));
            assert(c.last() == 0x2f);
        }
        to = to - 1;
    }
    to
}

/// Builds the lookup key of an entry from its header's prefix and name.
pub fn canonicalize_path(prefix: &Vec<u8>, name: &Vec<u8>) -> (r: Vec<u8>)
    ensures
        r@ == canonical(prefix@, name@),
{
    let joined: Vec<u8> = join_path(prefix, name);
    if joined.len() == 1 && joined[0] == 0x2e {
        proof {
            assert(joined@ =~= seq![0x2eu8]);
        }
        return Vec::new();
    }
    let mut from: usize = 0;
    if joined.len() >= 2 && joined[0] == 0x2e && joined[1] == 0x2f {
        from = 2;
    }
    proof {
        assert(joined@ != seq![0x2eu8]) by {
            if joined@ == seq![0x2eu8] {
                assert(joined@[0] == 0x2e);
            }
        }
        assert(joined@.skip(0) =~= joined@);
    }
    let to: usize = trimmed_end(&joined, from);
    if to == from {
        return Vec::new();
    }
    let mut out: Vec<u8> = Vec::new();
    out.push(0x2f);
    push_all(&mut out, &joined, from, to);
    proof {
        assert(out@ =~= seq![0x2fu8] + joined@.subrange(from as int, to as int));
    }
    out
}

/// What one header block says.
#[verifier::ext_equal]
pub struct HeaderView {
    pub path: Seq<u8>,
    pub typeflag: u8,
    pub size: u64,
    pub mode_perms: u32,
    pub uid: u32,
    pub gid: u32,
    pub mtime: i64,
}

pub open spec fn or_zero(v: Option<u64>) -> u64 {
    match v {
        Some(x) => x,
        None => 0,
    }
}

/// Whether the block carries the ustar magic, in its POSIX or GNU form.
pub open spec fn has_magic(b: Seq<u8>) -> bool {
    b.subrange(257, 263) == seq![0x75u8, 0x73, 0x74, 0x61, 0x72, 0] || b.subrange(257, 263)
        == seq![0x75u8, 0x73, 0x74, 0x61, 0x72, 0x20]
}

/// The header in block `lba`: the size field must parse; other numeric fields
/// fall back to zero.
pub open spec fn header(b: Seq<u8>, lba: u64) -> Result<HeaderView, MountErr> {
    if !has_magic(b) {
        Err(MountErr::BadMagic { lba })
    } else {
        match octal(b.subrange(124, 136)) {
            None => Err(MountErr::BadHeader { lba }),
            Some(size) => Ok(
                HeaderView {
                    path: canonical(field_str(b.subrange(345, 500)), field_str(b.subrange(0, 100))),
                    typeflag: b[156],
                    size,
                    mode_perms: (or_zero(octal(b.subrange(100, 108))) as u32) & 0o7777u32,
                    uid: or_zero(octal(b.subrange(108, 116))) as u32,
                    gid: or_zero(octal(b.subrange(116, 124))) as u32,
                    mtime: or_zero(octal(b.subrange(136, 148))) as i64,
                },
            ),
        }
    }
}

/// What an entry of this type is, if the filesystem keeps it.
pub open spec fn kind_of(typeflag: u8) -> Option<Kind> {
    if typeflag == 0 || typeflag == 0x30 {
        Some(Kind::Reg)
    } else if typeflag == 0x35 {
        Some(Kind::Dir)
    } else {
        None
    }
}

/// The entry a header at `lba` adds, if any: regular files and directories
/// with a name.
pub open spec fn entry_of(h: HeaderView, lba: u64) -> Option<TarEntry> {
    match kind_of(h.typeflag) {
        None => None,
        Some(kind) => if h.path.len() == 0 {
            None
        } else {
            Some(
                TarEntry {
                    path: h.path,
                    kind,
                    data_sector: if kind == Kind::Reg {
                        (lba + 1) as u64
                    } else {
                        0
                    },
                    size: h.size,
                    mode_perms: h.mode_perms,
                    uid: h.uid,
                    gid: h.gid,
                    mtime: h.mtime,
                },
            )
        },
    }
}

/// Sectors taken by `size` bytes of data.
pub open spec fn sectors_for(size: u64) -> int {
    (size + 511) / 512
}

pub open spec fn all_zero(b: Seq<u8>) -> bool {
    forall|i: int| 0 <= i < b.len() ==> b[i] == 0
}

/// Where a walk over an archive stands.
#[verifier::ext_equal]
pub struct WalkView {
    pub lba: int,
    pub prev_zero: bool,
    pub done: bool,
    pub entries: Seq<TarEntry>,
}

/// The walk after the sector at its position was read: a second consecutive
/// zero block ends it, any other block must be a header and is followed by its
/// data.
pub open spec fn walk_step(w: WalkView, b: Seq<u8>) -> Result<WalkView, MountErr> {
    if all_zero(b) {
        if w.prev_zero {
            Ok(WalkView { done: true, ..w })
        } else {
            Ok(WalkView { lba: w.lba + 1, prev_zero: true, ..w })
        }
    } else {
        match header(b, w.lba as u64) {
            Err(e) => Err(e),
            Ok(h) => Ok(
                WalkView {
                    lba: w.lba + 1 + sectors_for(h.size),
                    prev_zero: false,
                    done: w.done,
                    entries: match entry_of(h, w.lba as u64) {
                        Some(e) => w.entries.push(e),
                        None => w.entries,
                    },
                },
            ),
        }
    }
}

fn slice_is_zero(b: &[u8]) -> (r: bool)
    ensures
        r == all_zero(b@),
{
    let mut i: usize = 0;
    while i < b.len()
        invariant
            i <= b@.len(),
            forall|j: int| 0 <= j < i ==> b@[j] == 0,
        decreases b@.len() - i,
    {
        if b[i] != 0 {
            return false;
        }
        i = i + 1;
    }
    true
}

fn magic_ok(b: &[u8]) -> (r: bool)
    requires
        b@.len() == 512,
    ensures
        r == has_magic(b@),
{
    let o: usize = HEADER_MAGIC_OFFSET;
    let r: bool = b[o] == 0x75 && b[o + 1] == 0x73 && b[o + 2] == 0x74 && b[o + 3] == 0x61 && b[o
        + 4] == 0x72 && (b[o + 5] == 0 || b[o + 5] == 0x20);
    proof {
        let m = b@.subrange(257, 263);
        assert(m[0] == b@[257] && m[1] == b@[258] && m[2] == b@[259] && m[3] == b@[260] && m[4]
            == b@[261] && m[5] == b@[262]);
        if r {
            if b@[262] == 0 {
                assert(m =~= seq![0x75u8, 0x73, 0x74, 0x61, 0x72, 0]);
            } else {
                assert(m =~= seq![0x75u8, 0x73, 0x74, 0x61, 0x72, 0x20]);
            }
        }
    }
    r
}

fn octal_field(b: &[u8], off: usize, len: usize) -> (r: Option<u64>)
    requires
        b@.len() == 512,
        off + len <= 512,
    ensures
        r == octal(b@.subrange(off as int, off + len)),
        r matches Some(v) ==> v < pow8(len as int),
{
    parse_octal(vstd::slice::slice_subrange(b, off, off + len))
}

fn or_zero_exec(v: Option<u64>) -> (r: u64)
    ensures
        r == or_zero(v),
{
    match v {
        Some(x) => x,
        None => 0,
    }
}

/// A walk over an archive, one sector at a time.
pub struct TarWalk {
    lba: u64,
    prev_zero: bool,
    done: bool,
    inodes: Vec<Option<TarInode>>,
}

/// The entries behind an inode table whose slot zero is empty.
pub open spec fn entries_of(inodes: Seq<Option<TarInode>>) -> Seq<TarEntry> {
    Seq::new((inodes.len() - 1) as nat, |i: int| inodes[i + 1]->0@)
}

/// Slot zero is empty and every other slot is used.
pub open spec fn table_ok(inodes: Seq<Option<TarInode>>) -> bool {
    &&& inodes.len() >= 1
    &&& inodes[0] is None
    &&& forall|i: int| 1 <= i < inodes.len() ==> (#[trigger] inodes[i]) is Some
}

/// Sizes and positions stay far from the 64-bit limit.
pub open spec fn entry_small(e: TarEntry) -> bool {
    e.size < 0x10_0000_0000 && e.data_sector <= 0x80_0000_0000_0000
}

impl View for TarWalk {
    type V = WalkView;

    closed spec fn view(&self) -> WalkView {
        WalkView {
            lba: self.lba as int,
            prev_zero: self.prev_zero,
            done: self.done,
            entries: entries_of(self.inodes@),
        }
    }
}

impl TarWalk {
    pub closed spec fn wf(self) -> bool {
        &&& table_ok(self.inodes@)
        &&& forall|i: int|
            0 <= i < entries_of(self.inodes@).len() ==> entry_small(
                #[trigger] entries_of(self.inodes@)[i],
            )
    }

    /// A walk at the first sector.
    pub fn new() -> (r: Self)
        ensures
            r.wf(),
            r@ == (WalkView { lba: 0, prev_zero: false, done: false, entries: Seq::empty() }),
    {
        let mut inodes: Vec<Option<TarInode>> = Vec::new();
        inodes.push(None);
        let r = TarWalk { lba: 0, prev_zero: false, done: false, inodes };
        proof {
            assert(entries_of(r.inodes@) =~= Seq::<TarEntry>::empty());
        }
        r
    }

    /// The sector to read next on a device of `capacity` sectors; `None` when
    /// the walk is over.
    pub fn next_lba(&self, capacity: u64) -> (r: Option<u64>)
        ensures
            r == (if self@.done || self@.lba >= capacity {
                None::<u64>
            } else {
                Some(self@.lba as u64)
            }),
    {
        if self.done || self.lba >= capacity {
            None
        } else {
            Some(self.lba)
        }
    }

    /// Takes in the sector at the walk's position.
    pub fn feed(&mut self, b: &[u8]) -> (r: Result<(), MountErr>)
        requires
            old(self).wf(),
            b@.len() == 512,
            old(self)@.lba < 0x80_0000_0000_0000,
        ensures
            final(self).wf(),
            match walk_step(old(self)@, b@) {
                Ok(w) => r is Ok && final(self)@ == w,
                Err(e) => r == Err::<(), MountErr>(e) && final(self)@ == old(self)@,
            },
    {
        if slice_is_zero(b) {
            if self.prev_zero {
                self.done = true;
                proof {
                    assert(self@ =~= walk_step(old(self)@, b@)->Ok_0);
                }
                return Ok(());
            }
            self.prev_zero = true;
            self.lba = self.lba + 1;
            proof {
                assert(self@ =~= walk_step(old(self)@, b@)->Ok_0);
            }
            return Ok(());
        }
        let lba: u64 = self.lba;
        if !magic_ok(b) {
            return Err(MountErr::BadMagic { lba });
        }
        let name = nt_str(vstd::slice::slice_subrange(b, 0, HEADER_NAME_LEN));
        let prefix = nt_str(
            vstd::slice::slice_subrange(
                b,
                HEADER_PREFIX_OFFSET,
                HEADER_PREFIX_OFFSET + HEADER_PREFIX_LEN,
            ),
        );
        let path = canonicalize_path(&prefix, &name);
        let typeflag: u8 = b[HEADER_TYPEFLAG_OFFSET];
        let size: u64 = match octal_field(b, HEADER_SIZE_OFFSET, HEADER_SIZE_LEN) {
            Some(s) => s,
            None => {
                return Err(MountErr::BadHeader { lba });
            },
        };
        proof {
            reveal_with_fuel(pow8, 13);
            assert(pow8(12) == 0x10_0000_0000);
        }
        let mode_perms: u32 = (or_zero_exec(octal_field(b, HEADER_MODE_OFFSET, HEADER_MODE_LEN))
            as u32) & 0o7777u32;
        let uid: u32 = or_zero_exec(octal_field(b, HEADER_UID_OFFSET, HEADER_UID_LEN)) as u32;
        let gid: u32 = or_zero_exec(octal_field(b, HEADER_GID_OFFSET, HEADER_GID_LEN)) as u32;
        let mtime: i64 = or_zero_exec(octal_field(b, HEADER_MTIME_OFFSET, HEADER_MTIME_LEN)) as i64;
        let data_lba: u64 = lba + 1;
        let data_sectors: u64 = (size + 511) / 512;
        let kind: Option<Kind> = if typeflag == 0 || typeflag == 0x30 {
            Some(Kind::Reg)
        } else if typeflag == 0x35 {
            Some(Kind::Dir)
        } else {
            None
        };
        let ghost h = header(b@, lba)->Ok_0;
        let ghost before = self.inodes@;
        match kind {
            Some(k) => {
                if path.len() > 0 {
                    let data_sector: u64 = match k {
                        Kind::Reg => data_lba,
                        Kind::Dir => 0,
                    };
                    self.inodes.push(
                        Some(
                            TarInode {
                                path,
                                kind: k,
                                data_sector,
                                size,
                                mode_perms,
                                uid,
                                gid,
                                mtime,
                            },
                        ),
                    );
                    proof {
                        let e = entry_of(h, lba)->0;
                        assert(entries_of(self.inodes@) =~= entries_of(before).push(e));
                    }
                }
            },
            None => {},
        }
        self.lba = data_lba + data_sectors;
        self.prev_zero = false;
        proof {
            assert(self@.entries =~= walk_step(old(self)@, b@)->Ok_0.entries);
            assert(self@ =~= walk_step(old(self)@, b@)->Ok_0);
        }
        Ok(())
    }

    /// The filesystem of the entries seen so far.
    pub fn finish(self) -> (r: Tarfs)
        requires
            self.wf(),
        ensures
            r.wf(),
            r@ == self@.entries,
    {
        Tarfs { inodes: self.inodes }
    }
}

/// Bound on the sectors a walk still reads.
pub open spec fn steps_left(w: WalkView, capacity: int) -> int {
    if w.done || w.lba >= capacity {
        0
    } else {
        capacity - w.lba
    }
}

/// The walk from `w` to its end over a device whose sector `i` is
/// `disk[i]`.
pub open spec fn walked(w: WalkView, disk: Seq<Seq<u8>>) -> Result<WalkView, MountErr>
    decreases steps_left(w, disk.len() as int),
{
    if w.done || w.lba >= disk.len() || w.lba < 0 {
        Ok(w)
    } else {
        match walk_step(w, disk[w.lba]) {
            Err(e) => Err(e),
            Ok(n) => if n.done {
                Ok(n)
            } else {
                walked(n, disk)
            },
        }
    }
}

/// A mounted archive. Inode `i` is entry `i`; entry zero names nothing.
pub struct Tarfs {
    inodes: Vec<Option<TarInode>>,
}

impl View for Tarfs {
    type V = Seq<TarEntry>;

    /// The entries in archive order; inode `i` is entry `i - 1`.
    closed spec fn view(&self) -> Seq<TarEntry> {
        entries_of(self.inodes@)
    }
}

/// Sector `i` of an image.
pub open spec fn sector_of(image: Seq<u8>, i: int) -> Seq<u8> {
    image.subrange(i * 512, i * 512 + 512)
}

/// The whole sectors of an image.
pub open spec fn sectors_of(image: Seq<u8>) -> Seq<Seq<u8>> {
    Seq::new((image.len() / 512) as nat, |i: int| sector_of(image, i))
}

/// The inode that `path` names in `entries`: the last one listed under it.
pub open spec fn find_path(entries: Seq<TarEntry>, path: Seq<u8>) -> Option<int>
    decreases entries.len(),
{
    if entries.len() == 0 {
        None
    } else if entries.last().path == path {
        Some(entries.len() as int)
    } else {
        find_path(entries.drop_last(), path)
    }
}

/// The entry behind an inode id.
pub open spec fn inode_entry(entries: Seq<TarEntry>, ino: Inode) -> Option<TarEntry> {
    if 1 <= ino <= entries.len() {
        Some(entries[ino - 1])
    } else {
        None
    }
}

/// Metadata of an entry.
pub open spec fn stat_of(e: TarEntry, ino: Inode) -> Stat {
    Stat {
        st_dev: 1,
        st_ino: ino as u64,
        st_mode: (match e.kind {
            Kind::Reg => S_IFREG,
            Kind::Dir => S_IFDIR,
        }) | e.mode_perms,
        st_nlink: 1,
        st_uid: e.uid,
        st_gid: e.gid,
        st_rdev: 0,
        st_size: match e.kind {
            Kind::Reg => e.size as i64,
            Kind::Dir => 0,
        },
        st_blksize: 512,
        st_blocks: match e.kind {
            Kind::Reg => ((e.size + 511) / 512) as i64,
            Kind::Dir => 0,
        },
        st_atime: e.mtime,
        st_atime_nsec: 0,
        st_mtime: e.mtime,
        st_mtime_nsec: 0,
        st_ctime: e.mtime,
        st_ctime_nsec: 0,
    }
}

/// Size of an entry's contents: zero for directories.
pub open spec fn size_of_entry(e: TarEntry) -> u64 {
    match e.kind {
        Kind::Reg => e.size,
        Kind::Dir => 0,
    }
}

/// A single-sector read: where it goes and how many of its bytes belong to the
/// file.
#[derive(Clone, Copy, Debug, PartialEq, Eq, Structural)]
pub struct BlockRead {
    pub lba: u64,
    pub valid: u64,
}

/// Block of page `page_idx` of an entry's contents.
pub open spec fn page_lba(e: TarEntry, page_idx: u64) -> Result<u64, FsErr> {
    if e.kind != Kind::Reg {
        Err(FsErr::NotRegular)
    } else if page_idx * 4096 >= e.size {
        Err(FsErr::BadRange)
    } else {
        Ok((e.data_sector + page_idx * 8) as u64)
    }
}

/// The single-sector read of an entry at byte `off`.
pub open spec fn sector_read(e: TarEntry, off: u64, len: u32) -> Result<BlockRead, FsErr> {
    if e.kind != Kind::Reg {
        Err(FsErr::NotRegular)
    } else if len != 512 || off % 512 != 0 || off >= e.size {
        Err(FsErr::BadRange)
    } else {
        Ok(
            BlockRead {
                lba: (e.data_sector + off / 512) as u64,
                valid: if e.size - off < 512 {
                    (e.size - off) as u64
                } else {
                    512
                },
            },
        )
    }
}

fn bytes_eq(a: &Vec<u8>, b: &[u8]) -> (r: bool)
    ensures
        r == (a@ == b@),
{
    if a.len() != b.len() {
        return false;
    }
    let mut i: usize = 0;
    while i < a.len()
        invariant
            i <= a@.len(),
            a@.len() == b@.len(),
            forall|j: int| 0 <= j < i ==> a@[j] == b@[j],
        decreases a@.len() - i,
    {
        if a[i] != b[i] {
            return false;
        }
        i = i + 1;
    }
    proof {
        assert(a@ =~= b@);
    }
    true
}

impl Tarfs {
    pub closed spec fn wf(self) -> bool {
        &&& table_ok(self.inodes@)
        &&& forall|i: int|
            0 <= i < entries_of(self.inodes@).len() ==> entry_small(
                #[trigger] entries_of(self.inodes@)[i],
            )
    }

    pub proof fn lemma_entries_small(&self)
        requires
            self.wf(),
        ensures
            forall|i: int| 0 <= i < self@.len() ==> entry_small(#[trigger] self@[i]),
    {
    }

    /// Walks a disk image and builds the inode table. The archive ends at two
    /// consecutive zero blocks or at the end of the image.
    pub fn mount(image: &[u8]) -> (r: Result<Self, MountErr>)
        ensures
            match walked(
                WalkView { lba: 0, prev_zero: false, done: false, entries: Seq::empty() },
                sectors_of(image@),
            ) {
                Ok(w) => r matches Ok(t) && t.wf() && t@ == w.entries,
                Err(e) => r matches Err(x) && x == e,
            },
    {
        let capacity: u64 = (image.len() / 512) as u64;
        let mut walk = TarWalk::new();
        let ghost disk = sectors_of(image@);
        let ghost start = walk@;
        loop
            invariant
                walk.wf(),
                capacity == image@.len() / 512,
                disk == sectors_of(image@),
                capacity == disk.len(),
                image@.len() <= usize::MAX,
                0 <= walk@.lba,
                start == (WalkView {
                    lba: 0,
                    prev_zero: false,
                    done: false,
                    entries: Seq::empty(),
                }),
                walked(start, disk) == walked(walk@, disk),
            ensures
                walk.wf(),
                walked(start, disk) == Ok::<WalkView, MountErr>(walk@),
            decreases steps_left(walk@, disk.len() as int),
        {
            let lba: u64 = match walk.next_lba(capacity) {
                Some(l) => l,
                None => {
                    break ;
                },
            };
            let at: usize = (lba * 512) as usize;
            proof {
                assert(lba < image@.len() / 512);
                assert(at + 512 <= image@.len());
            }
            let b = vstd::slice::slice_subrange(image, at, at + 512);
            proof {
                assert(b@ == disk[walk@.lba]);
                assert(walked(walk@, disk) == (match walk_step(walk@, b@) {
                    Err(e) => Err(e),
                    Ok(n) => if n.done {
                        Ok(n)
                    } else {
                        walked(n, disk)
                    },
                }));
            }
            match walk.feed(b) {
                Ok(()) => {},
                Err(e) => {
                    return Err(e);
                },
            }
        }
        Ok(walk.finish())
    }

    /// Number of entries.
    pub fn entry_count(&self) -> (r: usize)
        requires
            self.wf(),
        ensures
            r == self@.len(),
    {
        self.inodes.len() - 1
    }

    /// The entry behind an inode id.
    pub fn entry(&self, ino: Inode) -> (r: Result<&TarInode, FsErr>)
        requires
            self.wf(),
        ensures
            match inode_entry(self@, ino) {
                Some(e) => r matches Ok(t) && t@ == e,
                None => r matches Err(x) && x == FsErr::BadInode,
            },
    {
        let i: usize = ino as usize;
        if i >= self.inodes.len() {
            return Err(FsErr::BadInode);
        }
        match &self.inodes[i] {
            Some(e) => {
                proof {
                    assert(self@[ino - 1] == e@);
                }
                Ok(e)
            },
            None => {
                proof {
                    assert(ino == 0);
                }
                Err(FsErr::BadInode)
            },
        }
    }

    /// Device id of the mount.
    pub fn dev_id(&self) -> (r: u8)
        ensures
            r == 1,
    {
        1
    }

    /// Resolves an absolute path.
    pub fn open(&self, path: &[u8]) -> (r: Result<Inode, FsErr>)
        requires
            self.wf(),
        ensures
            r == (match find_path(self@, path@) {
                Some(i) => Ok::<Inode, FsErr>(i as u32),
                None => Err(FsErr::NotFound),
            }),
    {
        let mut n: usize = self.inodes.len();
        proof {
            assert(self@.take(n - 1) =~= self@);
        }
        while n > 1
            invariant
                self.wf(),
                1 <= n <= self.inodes@.len(),
                find_path(self@, path@) == find_path(self@.take(n - 1), path@),
            decreases n,
        {
            let i: usize = n - 1;
            proof {
                let t = self@.take(n - 1);
                assert(t.last() == self@[n - 2]);
                assert(t.drop_last() =~= self@.take(n - 2));
                assert(self.inodes@[i as int] is Some);
                assert(self@[n - 2] == self.inodes@[i as int]->0@);
            }
            match &self.inodes[i] {
                Some(e) => {
                    if bytes_eq(&e.path, path) {
                        return Ok(i as u32);
                    }
                },
                None => {},
            }
            n = n - 1;
        }
        Err(FsErr::NotFound)
    }

    /// First block of page `page_idx` of a file.
    pub fn lba_for_page(&self, ino: Inode, page_idx: u64) -> (r: Result<u64, FsErr>)
        requires
            self.wf(),
        ensures
            r == (match inode_entry(self@, ino) {
                None => Err::<u64, FsErr>(FsErr::BadInode),
                Some(e) => page_lba(e, page_idx),
            }),
    {
        let e = match self.entry(ino) {
            Ok(e) => e,
            Err(x) => {
                return Err(x);
            },
        };
        proof {
            self.lemma_entries_small();
            assert(entry_small(self@[ino - 1]));
        }
        match e.kind {
            Kind::Dir => Err(FsErr::NotRegular),
            Kind::Reg => {
                if page_idx >= 0x10_0000_0000 || page_idx * 4096 >= e.size {
                    return Err(FsErr::BadRange);
                }
                Ok(e.data_sector + page_idx * 8)
            },
        }
    }

    /// The device read behind a single-sector read of a file.
    pub fn read_async(&self, ino: Inode, off: u64, len: u32) -> (r: Result<BlockRead, FsErr>)
        requires
            self.wf(),
        ensures
            r == (match inode_entry(self@, ino) {
                None => Err::<BlockRead, FsErr>(FsErr::BadInode),
                Some(e) => sector_read(e, off, len),
            }),
    {
        let e = match self.entry(ino) {
            Ok(e) => e,
            Err(x) => {
                return Err(x);
            },
        };
        proof {
            self.lemma_entries_small();
            assert(entry_small(self@[ino - 1]));
        }
        match e.kind {
            Kind::Dir => Err(FsErr::NotRegular),
            Kind::Reg => {
                if len != 512 {
                    return Err(FsErr::BadRange);
                }
                if off % 512 != 0 {
                    return Err(FsErr::BadRange);
                }
                if off >= e.size {
                    return Err(FsErr::BadRange);
                }
                let lba: u64 = e.data_sector + off / 512;
                let remaining: u64 = e.size - off;
                let valid: u64 = if remaining < 512 {
                    remaining
                } else {
                    512
                };
                Ok(BlockRead { lba, valid })
            },
        }
    }

    /// Metadata of an inode.
    pub fn stat(&self, ino: Inode) -> (r: Result<Stat, FsErr>)
        requires
            self.wf(),
        ensures
            r == (match inode_entry(self@, ino) {
                None => Err::<Stat, FsErr>(FsErr::BadInode),
                Some(e) => Ok(stat_of(e, ino)),
            }),
    {
        let e = match self.entry(ino) {
            Ok(e) => e,
            Err(x) => {
                return Err(x);
            },
        };
        proof {
            self.lemma_entries_small();
            assert(entry_small(self@[ino - 1]));
        }
        let kind_bits: u32 = match e.kind {
            Kind::Reg => S_IFREG,
            Kind::Dir => S_IFDIR,
        };
        let st_size: i64 = match e.kind {
            Kind::Reg => e.size as i64,
            Kind::Dir => 0,
        };
        let st_blocks: i64 = match e.kind {
            Kind::Reg => ((e.size + (STAT_BLOCK_UNIT - 1)) / STAT_BLOCK_UNIT) as i64,
            Kind::Dir => 0,
        };
        Ok(
            Stat {
                st_dev: 1,
                st_ino: ino as u64,
                st_mode: kind_bits | e.mode_perms,
                st_nlink: 1,
                st_uid: e.uid,
                st_gid: e.gid,
                st_rdev: 0,
                st_size,
                st_blksize: 512,
                st_blocks,
                st_atime: e.mtime,
                st_atime_nsec: 0,
                st_mtime: e.mtime,
                st_mtime_nsec: 0,
                st_ctime: e.mtime,
                st_ctime_nsec: 0,
            },
        )
    }

    /// Size of a file in bytes; zero for directories.
    pub fn size(&self, ino: Inode) -> (r: Result<u64, FsErr>)
        requires
            self.wf(),
        ensures
            r == (match inode_entry(self@, ino) {
                None => Err::<u64, FsErr>(FsErr::BadInode),
                Some(e) => Ok(size_of_entry(e)),
            }),
    {
        match self.entry(ino) {
            Ok(e) => match e.kind {
                Kind::Reg => Ok(e.size),
                Kind::Dir => Ok(0),
            },
            Err(x) => Err(x),
        }
    }
}

/// Whether every byte is an octal digit.
pub open spec fn all_octal(s: Seq<u8>) -> bool {
    forall|i: int| 0 <= i < s.len() ==> 0x30 <= #[trigger] s[i] <= 0x37
}

proof fn lemma_digit_appended(s: Seq<u8>, d: u8, i: int, acc: int, saw: bool)
    requires
        all_octal(s),
        0x30 <= d <= 0x37,
        0 <= i <= s.len(),
        0 <= acc <= u64::MAX,
    ensures
        octal_from(s.push(d), i, acc, saw) == (match octal_from(s, i, acc, saw) {
            Some(v) if v * 8 + (d - 0x30) <= u64::MAX => Some((v * 8 + (d - 0x30)) as u64),
            _ => None,
        }),
    decreases s.len() - i,
{
    let t = s.push(d);
    if i < s.len() {
        assert(t[i] == s[i]);
        let n = acc * 8 + (s[i] - 0x30);
        if n <= u64::MAX {
            lemma_digit_appended(s, d, i + 1, n, true);
        }
    } else {
        assert(t[i] == d);
        let n = acc * 8 + (d - 0x30);
        if n <= u64::MAX {
            assert(octal_from(t, i + 1, n, true) == Some(n as u64));
        }
    }
}

/// A field of octal digits is read from the left: one more digit is worth
/// eight times what stood before it, and a value beyond 64 bits is refused.
pub proof fn law_octal_digits_are_read_from_the_left(s: Seq<u8>, d: u8)
    requires
        all_octal(s),
        0x30 <= d <= 0x37,
    ensures
        octal(Seq::<u8>::empty()) == Some(0u64),
        octal(s.push(d)) == (match octal(s) {
            Some(v) if v * 8 + (d - 0x30) <= u64::MAX => Some((v * 8 + (d - 0x30)) as u64),
            _ => None,
        }),
{
    lemma_digit_appended(s, d, 0, 0, false);
}

proof fn lemma_number_ends(s: Seq<u8>, rest: Seq<u8>, i: int, acc: int, saw: bool)
    requires
        all_octal(s),
        0 <= i <= s.len(),
        saw || i < s.len(),
        0 <= acc <= u64::MAX,
        rest.len() > 0,
    ensures
        rest[0] == 0 || rest[0] == 0x20 ==> octal_from(s + rest, i, acc, saw) == octal_from(
            s,
            i,
            acc,
            saw,
        ),
        rest[0] != 0 && rest[0] != 0x20 && !(0x30 <= rest[0] <= 0x37) ==> octal_from(
            s + rest,
            i,
            acc,
            saw,
        ) is None,
    decreases s.len() - i,
{
    let t = s + rest;
    if i < s.len() {
        assert(t[i] == s[i]);
        let n = acc * 8 + (s[i] - 0x30);
        if n <= u64::MAX {
            lemma_number_ends(s, rest, i + 1, n, true);
        }
    } else {
        assert(t[i] == rest[0]);
    }
}

proof fn lemma_padding_skipped(s: Seq<u8>, c: u8, i: int, acc: int, saw: bool)
    requires
        0 <= i <= s.len(),
    ensures
        octal_from(seq![c] + s, i + 1, acc, saw) == octal_from(s, i, acc, saw),
    decreases s.len() - i,
{
    let t = seq![c] + s;
    if i < s.len() {
        assert(t[i + 1] == s[i]);
        if s[i] == 0x20 || s[i] == 0 {
            if !saw {
                lemma_padding_skipped(s, c, i + 1, acc, saw);
            }
        } else if 0x30 <= s[i] <= 0x37 {
            lemma_padding_skipped(s, c, i + 1, acc * 8 + (s[i] - 0x30), true);
        }
    }
}

/// A number ends at the first blank or zero byte behind its digits, whatever
/// follows; blanks before it do not count; any other byte spoils it.
pub proof fn law_a_number_ends_at_its_padding(digits: Seq<u8>, rest: Seq<u8>)
    requires
        all_octal(digits),
        digits.len() > 0,
        rest.len() > 0,
    ensures
        rest[0] == 0 || rest[0] == 0x20 ==> octal(digits + rest) == octal(digits),
        rest[0] != 0 && rest[0] != 0x20 && !(0x30 <= rest[0] <= 0x37) ==> octal(
            digits + rest,
        ) is None,
        octal(seq![0x20u8] + rest) == octal(rest),
        octal(seq![0u8] + rest) == octal(rest),
{
    lemma_number_ends(digits, rest, 0, 0, false);
    lemma_padding_skipped(rest, 0x20, 0, 0, false);
    lemma_padding_skipped(rest, 0, 0, 0, false);
    assert((seq![0x20u8] + rest)[0] == 0x20);
    assert((seq![0u8] + rest)[0] == 0);
}

proof fn lemma_nul_found(s: Seq<u8>, i: int, k: int)
    requires
        0 <= i <= k <= s.len(),
        forall|j: int| i <= j < k ==> s[j] != 0,
        k < s.len() ==> s[k] == 0,
    ensures
        nul_at(s, i) == k,
    decreases k - i,
{
    if i < k {
        lemma_nul_found(s, i + 1, k);
    }
}

/// A text field holds what stands before its first zero byte, all of it
/// where there is none, and nothing where that is no text.
pub proof fn law_a_text_field_ends_at_its_first_zero(text: Seq<u8>, rest: Seq<u8>)
    requires
        forall|i: int| 0 <= i < text.len() ==> #[trigger] text[i] != 0,
    ensures
        valid_utf8(text) ==> field_str(text) == text,
        valid_utf8(text) ==> field_str(text + seq![0u8] + rest) == text,
        !valid_utf8(text) ==> field_str(text + seq![0u8] + rest).len() == 0,
{
    let t = text + seq![0u8] + rest;
    let k = text.len() as int;
    assert(forall|j: int| 0 <= j < k ==> t[j] == text[j]);
    assert(t[k] == 0);
    lemma_nul_found(t, 0, k);
    lemma_nul_found(text, 0, k);
    assert(t.take(k) =~= text);
    assert(text.take(k) =~= text);
}

/// A path in the archive hangs below the root: it has one slash before it
/// and none behind it, `./` before it does not count, and a prefix stands
/// before the name with one slash between them.
pub proof fn law_archive_paths_hang_below_the_root(prefix: Seq<u8>, name: Seq<u8>)
    requires
        name.len() > 0,
        name.last() != 0x2f,
        name[0] != 0x2e,
    ensures
        canonical(Seq::empty(), name) == seq![0x2fu8] + name,
        canonical(Seq::empty(), name.push(0x2f)) == seq![0x2fu8] + name,
        canonical(Seq::empty(), seq![0x2eu8, 0x2fu8] + name) == seq![0x2fu8] + name,
        canonical(Seq::empty(), seq![0x2eu8]).len() == 0,
        canonical(Seq::empty(), seq![0x2eu8, 0x2fu8]).len() == 0,
        prefix.len() > 0 && prefix[0] != 0x2e && prefix.last() != 0x2f ==> canonical(prefix, name)
            == seq![0x2fu8] + prefix + seq![0x2fu8] + name,
        prefix.len() > 0 && prefix[0] != 0x2e && prefix.last() != 0x2f ==> canonical(
            prefix.push(0x2f),
            name,
        ) == seq![0x2fu8] + prefix + seq![0x2fu8] + name,
{
    let e = Seq::<u8>::empty();
    assert(name != seq![0x2eu8]) by {
        if name == seq![0x2eu8] {
            assert(name[0] == 0x2e);
        }
    }
    assert(trimmed(name) == name);
    let n1 = name.push(0x2f);
    assert(n1 != seq![0x2eu8]) by {
        if n1 == seq![0x2eu8] {
            assert(n1[0] == 0x2e);
        }
    }
    assert(n1[0] == name[0]);
    assert(n1.drop_last() =~= name);
    assert(trimmed(n1) == name);
    let n2 = seq![0x2eu8, 0x2fu8] + name;
    assert(n2.len() != 1);
    assert(n2[0] == 0x2e && n2[1] == 0x2f);
    assert(n2.skip(2) =~= name);
    let n3 = seq![0x2eu8, 0x2fu8];
    assert(n3.skip(2) =~= e);
    assert(trimmed(e) == e);
    if prefix.len() > 0 && prefix[0] != 0x2e && prefix.last() != 0x2f {
        let j = prefix + seq![0x2fu8] + name;
        assert(j[0] == prefix[0]);
        assert(j.last() == name.last());
        assert(j != seq![0x2eu8]) by {
            if j == seq![0x2eu8] {
                assert(j[0] == 0x2e);
            }
        }
        assert(trimmed(j) == j);
        assert(seq![0x2fu8] + j =~= seq![0x2fu8] + prefix + seq![0x2fu8] + name);
        assert(prefix.push(0x2f) + name =~= j);
        assert(prefix.push(0x2f).last() == 0x2f);
    }
}

/// A header is read where its magic stands and its size is a number: the
/// fields lie at their places in the block, and a number that is not legible
/// counts as zero.
pub proof fn law_a_header_is_read_field_by_field(b: Seq<u8>, lba: u64)
    requires
        b.len() == 512,
    ensures
        !(b[257] == 0x75 && b[258] == 0x73 && b[259] == 0x74 && b[260] == 0x61 && b[261] == 0x72
            && (b[262] == 0 || b[262] == 0x20)) <==> header(b, lba) == Err::<HeaderView, MountErr>(
            MountErr::BadMagic { lba },
        ),
        header(b, lba) is Ok || header(b, lba) == Err::<HeaderView, MountErr>(
            MountErr::BadMagic { lba },
        ) || (octal(b.subrange(124, 136)) is None && header(b, lba) == Err::<HeaderView, MountErr>(
            MountErr::BadHeader { lba },
        )),
        header(b, lba) matches Ok(h) ==> {
            &&& octal(b.subrange(124, 136)) == Some(h.size)
            &&& h.typeflag == b[156]
            &&& h.path == canonical(
                field_str(b.subrange(345, 500)),
                field_str(b.subrange(0, 100)),
            )
            &&& octal(b.subrange(108, 116)) matches Some(v) ==> h.uid == v as u32
            &&& octal(b.subrange(108, 116)) is None ==> h.uid == 0
            &&& octal(b.subrange(116, 124)) matches Some(v) ==> h.gid == v as u32
            &&& octal(b.subrange(116, 124)) is None ==> h.gid == 0
            &&& octal(b.subrange(136, 148)) matches Some(v) ==> h.mtime == v as i64
            &&& octal(b.subrange(136, 148)) is None ==> h.mtime == 0
            &&& h.mode_perms <= 0o7777
            &&& octal(b.subrange(100, 108)) matches Some(v) ==> (v <= 0o7777 ==> h.mode_perms == v)
            &&& octal(b.subrange(100, 108)) is None ==> h.mode_perms == 0
        },
{
    let m = b.subrange(257, 263);
    assert(m.len() == 6);
    assert(m[0] == b[257] && m[1] == b[258] && m[2] == b[259] && m[3] == b[260] && m[4] == b[261]
        && m[5] == b[262]);
    let z = seq![0x75u8, 0x73, 0x74, 0x61, 0x72, 0];
    let s = seq![0x75u8, 0x73, 0x74, 0x61, 0x72, 0x20];
    if b[257] == 0x75 && b[258] == 0x73 && b[259] == 0x74 && b[260] == 0x61 && b[261] == 0x72 {
        if b[262] == 0 {
            assert(m =~= z);
        } else if b[262] == 0x20 {
            assert(m =~= s);
        }
    }
    let p = or_zero(octal(b.subrange(100, 108))) as u32;
    assert(p & 0o7777u32 <= 0o7777 && (p <= 0o7777 ==> p & 0o7777u32 == p)) by (bit_vector);
}

/// A header makes an entry where it is of a file or a directory and has a
/// path. A file's data follow its header; the entry keeps what the header
/// says.
pub proof fn law_files_and_directories_make_entries(h: HeaderView, lba: u64)
    requires
        lba < u64::MAX,
    ensures
        entry_of(h, lba) is Some <==> h.path.len() > 0 && (h.typeflag == 0 || h.typeflag == 0x30
            || h.typeflag == 0x35),
        entry_of(h, lba) matches Some(e) ==> {
            &&& e.kind == Kind::Dir <==> h.typeflag == 0x35
            &&& e.kind == Kind::Reg ==> e.data_sector == lba + 1
            &&& e.kind == Kind::Dir ==> e.data_sector == 0
            &&& e.path == h.path && e.size == h.size && e.mode_perms == h.mode_perms
            &&& e.uid == h.uid && e.gid == h.gid && e.mtime == h.mtime
        },
{
}

/// The archive is read from header to header: behind a header come as many
/// blocks as its data fill, the last of them perhaps in part. Two blank
/// blocks in a row end it, one alone does not.
pub proof fn law_the_walk_goes_from_header_to_header(w: WalkView, b: Seq<u8>)
    requires
        b.len() == 512,
        0 <= w.lba < u64::MAX,
        !w.done,
    ensures
        (forall|i: int| 0 <= i < 512 ==> b[i] == 0) ==> (walk_step(w, b) matches Ok(n)
            && n.entries == w.entries && n.done == w.prev_zero && (!n.done ==> n.prev_zero && n.lba
            == w.lba + 1)),
        (exists|i: int| 0 <= i < 512 && b[i] != 0) ==> (match header(b, w.lba as u64) {
            Err(e) => walk_step(w, b) == Err::<WalkView, MountErr>(e),
            Ok(h) => {
                &&& walk_step(w, b) matches Ok(n)
                &&& !n.done && !n.prev_zero
                &&& (n.lba - w.lba - 1) * 512 >= h.size
                &&& (n.lba - w.lba - 2) * 512 < h.size
                &&& entry_of(h, w.lba as u64) matches Some(e) ==> n.entries == w.entries.push(e)
                &&& entry_of(h, w.lba as u64) is None ==> n.entries == w.entries
            },
        }),
{
}

/// What is told of an entry is what the archive says of it: its kind and
/// permissions, its owners, its times, and for a file its bytes and the
/// blocks they fill.
pub proof fn law_an_entry_is_told_as_it_is(e: TarEntry, ino: Inode)
    requires
        e.mode_perms <= 0o7777,
        e.size <= i64::MAX,
    ensures
        stat_of(e, ino).st_mode / 0o10000 == (if e.kind == Kind::Dir {
            0o4int
        } else {
            0o10int
        }),
        stat_of(e, ino).st_mode % 0o10000 == e.mode_perms,
        stat_of(e, ino).st_ino == ino,
        stat_of(e, ino).st_dev == 1,
        stat_of(e, ino).st_rdev == 0,
        stat_of(e, ino).st_nlink == 1,
        stat_of(e, ino).st_uid == e.uid,
        stat_of(e, ino).st_gid == e.gid,
        stat_of(e, ino).st_blksize == 512,
        stat_of(e, ino).st_atime == e.mtime,
        stat_of(e, ino).st_mtime == e.mtime,
        stat_of(e, ino).st_ctime == e.mtime,
        stat_of(e, ino).st_size == size_of_entry(e),
        e.kind == Kind::Reg ==> size_of_entry(e) == e.size,
        e.kind == Kind::Dir ==> size_of_entry(e) == 0,
        size_of_entry(e) <= 512 * stat_of(e, ino).st_blocks < size_of_entry(e) + 512,
{
    let p = e.mode_perms;
    assert(p <= 0o7777 ==> (0o040000u32 | p) == 0o040000 + p && (0o100000u32 | p) == 0o100000 + p)
        by (bit_vector);
}

/// A page of a file lies eight blocks behind the page before it, the first
/// where the data begin. A page beyond the file, or of a directory, is
/// refused.
pub proof fn law_pages_follow_the_data(e: TarEntry, page: u64)
    requires
        entry_small(e),
    ensures
        e.kind != Kind::Reg <==> page_lba(e, page) == Err::<u64, FsErr>(FsErr::NotRegular),
        page_lba(e, page) is Ok <==> e.kind == Kind::Reg && page * 4096 < e.size,
        e.kind == Kind::Reg && page * 4096 >= e.size ==> page_lba(e, page) == Err::<u64, FsErr>(
            FsErr::BadRange,
        ),
        page_lba(e, page) matches Ok(lba) ==> lba * 512 == e.data_sector * 512 + page * 4096,
{
}

/// A block of a file lies where its bytes do, and holds as many of the
/// file's bytes as are left. Anything but a whole block of the file is
/// refused.
pub proof fn law_blocks_follow_the_data(e: TarEntry, off: u64, len: u32)
    requires
        entry_small(e),
    ensures
        e.kind != Kind::Reg <==> sector_read(e, off, len) == Err::<BlockRead, FsErr>(
            FsErr::NotRegular,
        ),
        sector_read(e, off, len) is Ok <==> e.kind == Kind::Reg && len == 512 && off % 512 == 0
            && off < e.size,
        sector_read(e, off, len) is Err && e.kind == Kind::Reg ==> sector_read(e, off, len) == Err::<
            BlockRead,
            FsErr,
        >(FsErr::BadRange),
        sector_read(e, off, len) matches Ok(r) ==> {
            &&& r.lba * 512 == e.data_sector * 512 + off
            &&& 0 < r.valid <= 512
            &&& off + r.valid <= e.size
            &&& r.valid == 512 || off + r.valid == e.size
        },
{
}

/// Inode numbers count the entries from one on, and no other number has one.
pub proof fn law_inodes_count_from_one(entries: Seq<TarEntry>, ino: Inode)
    ensures
        inode_entry(entries, 0) is None,
        ino > entries.len() ==> inode_entry(entries, ino) is None,
        inode_entry(entries, ino) matches Some(e) ==> ino >= 1 && entries[ino as int - 1] == e,
        1 <= ino <= entries.len() ==> inode_entry(entries, ino) is Some,
{
}

/// An image is cut into blocks one after the other, and what does not fill
/// a block is left out.
pub proof fn law_an_image_is_cut_into_blocks(image: Seq<u8>, i: int, j: int)
    requires
        0 <= i < sectors_of(image).len(),
        0 <= j < 512,
    ensures
        sectors_of(image)[i].len() == 512,
        sectors_of(image)[i][j] == image[512 * i + j],
        sectors_of(image).len() * 512 <= image.len() < sectors_of(image).len() * 512 + 512,
{
    assert(i * 512 + 512 <= image.len());
}

/// Times are told in whole seconds, as the archive has them.
pub proof fn law_times_are_whole_seconds(e: TarEntry, ino: Inode)
    ensures
        stat_of(e, ino).st_atime_nsec == 0,
        stat_of(e, ino).st_mtime_nsec == 0,
        stat_of(e, ino).st_ctime_nsec == 0,
        stat_of(e, ino).st_rdev == 0,
{
}

} // verus!
