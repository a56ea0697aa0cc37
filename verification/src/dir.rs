//! Listing directories.

use crate::fs::{FsErr, Inode};
#[allow(unused_imports)]
use crate::tar::{find_path, inode_entry, TarEntry};
use crate::tar::{Kind, Tarfs};
use crate::uspace::copy_bytes;
use vstd::prelude::*;

verus! {

broadcast use {vstd::laws_cmp::group_laws_cmp, vstd::std_specs::btree::group_btree_axioms};

/// Whether `a` comes before `b` in byte order.
pub open spec fn bytes_lt(a: Seq<u8>, b: Seq<u8>) -> bool
    decreases a.len(),
{
    if b.len() == 0 {
        false
    } else if a.len() == 0 {
        true
    } else if a[0] != b[0] {
        a[0] < b[0]
    } else {
        bytes_lt(a.skip(1), b.skip(1))
    }
}

proof fn lemma_lt_irreflexive(a: Seq<u8>)
    ensures
        !bytes_lt(a, a),
    decreases a.len(),
{
    if a.len() > 0 {
        lemma_lt_irreflexive(a.skip(1));
    }
}

proof fn lemma_lt_transitive(a: Seq<u8>, b: Seq<u8>, c: Seq<u8>)
    requires
        bytes_lt(a, b),
        bytes_lt(b, c),
    ensures
        bytes_lt(a, c),
    decreases a.len(),
{
    if a.len() > 0 && b.len() > 0 && c.len() > 0 && a[0] == b[0] && b[0] == c[0] {
        lemma_lt_transitive(a.skip(1), b.skip(1), c.skip(1));
    }
}

proof fn lemma_lt_total(a: Seq<u8>, b: Seq<u8>)
    requires
        a != b,
    ensures
        bytes_lt(a, b) || bytes_lt(b, a),
    decreases a.len(),
{
    if a.len() > 0 && b.len() > 0 && a[0] == b[0] {
        if a.skip(1) == b.skip(1) {
            assert(a =~= seq![a[0]] + a.skip(1));
            assert(b =~= seq![b[0]] + b.skip(1));
        }
        lemma_lt_total(a.skip(1), b.skip(1));
    } else if a.len() == 0 && b.len() == 0 {
        assert(a =~= b);
    }
}

/// Compares byte strings.
fn bytes_less(a: &Vec<u8>, b: &Vec<u8>) -> (r: bool)
    ensures
        r == bytes_lt(a@, b@),
{
    let mut i: usize = 0;
    proof {
        assert(a@.skip(0) =~= a@);
        assert(b@.skip(0) =~= b@);
    }
    while i < a.len() && i < b.len()
        invariant
            i <= a@.len(),
            i <= b@.len(),
            bytes_lt(a@, b@) == bytes_lt(a@.skip(i as int), b@.skip(i as int)),
        decreases a@.len() - i,
    {
        if a[i] != b[i] {
            return a[i] < b[i];
        }
        proof {
            assert(a@.skip(i as int).skip(1) =~= a@.skip(i + 1));
            assert(b@.skip(i as int).skip(1) =~= b@.skip(i + 1));
        }
        i = i + 1;
    }
    i < b.len()
}

/// What the paths of a directory's children start with.
pub open spec fn dir_head(dir: Seq<u8>) -> Seq<u8> {
    if dir == seq![0x2fu8] {
        dir
    } else {
        dir.push(0x2fu8)
    }
}

/// The name that `path` has in the directory `dir`, if it lies right in it.
pub open spec fn name_in(dir: Seq<u8>, path: Seq<u8>) -> Option<Seq<u8>> {
    let head = dir_head(dir);
    if path.len() > head.len() && path.take(head.len() as int) == head && !path.skip(
        head.len() as int,
    ).contains(0x2fu8) {
        Some(path.skip(head.len() as int))
    } else {
        None
    }
}

/// Entry `i` lies right in `dir`, and its path names it and no later entry.
pub open spec fn is_child(t: Seq<TarEntry>, dir: Seq<u8>, i: int) -> bool {
    &&& 0 <= i < t.len()
    &&& name_in(dir, t[i].path) is Some
    &&& find_path(t, t[i].path) == Some(i + 1)
}

/// `s` lists the children of `dir` among the first `n` entries by name.
pub open spec fn lists_children(s: Seq<usize>, t: Seq<TarEntry>, dir: Seq<u8>, n: int) -> bool {
    &&& forall|i: int, j: int|
        0 <= i < j < s.len() ==> bytes_lt(
            t[#[trigger] s[i] as int].path,
            t[#[trigger] s[j] as int].path,
        )
    &&& forall|x: usize| #[trigger] s.contains(x) <==> x < n && is_child(t, dir, x as int)
}

/// The children of a directory by name.
pub open spec fn children(t: Seq<TarEntry>, dir: Seq<u8>) -> Seq<usize> {
    choose|s: Seq<usize>| lists_children(s, t, dir, t.len() as int)
}

/// A child goes behind those before it in byte order, and in front of the rest.
proof fn lemma_child_inserted(s: Seq<usize>, t: Seq<TarEntry>, dir: Seq<u8>, x: usize, p: int)
    requires
        lists_children(s, t, dir, x as int),
        is_child(t, dir, x as int),
        0 <= p <= s.len(),
        forall|i: int| 0 <= i < p ==> bytes_lt(t[#[trigger] s[i] as int].path, t[x as int].path),
        p < s.len() ==> !bytes_lt(t[s[p] as int].path, t[x as int].path),
    ensures
        lists_children(s.insert(p, x), t, dir, x + 1),
{
    let r = s.insert(p, x);
    let px = t[x as int].path;
    assert forall|i: int| p <= i < s.len() implies bytes_lt(px, t[#[trigger] s[i] as int].path) by {
        let first = t[s[p] as int].path;
        assert(s.contains(s[p]));
        assert(first != px) by {
            if first == px {
                assert(find_path(t, px) == Some(s[p] as int + 1));
            }
        }
        lemma_lt_total(first, px);
        if i > p {
            lemma_lt_transitive(px, first, t[s[i] as int].path);
        }
    }
    assert forall|i: int, j: int| 0 <= i < j < r.len() implies bytes_lt(
        t[#[trigger] r[i] as int].path,
        t[#[trigger] r[j] as int].path,
    ) by {
        if i < p {
            assert(r[i] == s[i]);
            if j < p {
                assert(r[j] == s[j]);
            } else if j > p {
                assert(r[j] == s[j - 1]);
            }
        } else if i == p {
            assert(r[j] == s[j - 1]);
        } else {
            assert(r[i] == s[i - 1]);
            assert(r[j] == s[j - 1]);
        }
    }
    assert forall|y: usize| #[trigger]
        r.contains(y) <==> y < x + 1 && is_child(t, dir, y as int) by {
        if r.contains(y) {
            let k = choose|k: int| 0 <= k < r.len() && r[k] == y;
            if k < p {
                assert(s[k] == y);
                assert(s.contains(y));
            } else if k > p {
                assert(s[k - 1] == y);
                assert(s.contains(y));
            }
        }
        if y < x + 1 && is_child(t, dir, y as int) {
            if y == x {
                assert(r[p] == x);
            } else {
                assert(s.contains(y));
                let k = choose|k: int| 0 <= k < s.len() && s[k] == y;
                if k < p {
                    assert(r[k] == y);
                } else {
                    assert(r[k + 1] == y);
                }
            }
        }
    }
}

/// Where a child goes among those listed, at `p` or behind it.
proof fn lemma_place_exists(s: Seq<usize>, t: Seq<TarEntry>, px: Seq<u8>, p: int) -> (r: int)
    requires
        0 <= p <= s.len(),
        forall|i: int| 0 <= i < p ==> bytes_lt(t[#[trigger] s[i] as int].path, px),
    ensures
        0 <= r <= s.len(),
        forall|i: int| 0 <= i < r ==> bytes_lt(t[#[trigger] s[i] as int].path, px),
        r < s.len() ==> !bytes_lt(t[s[r] as int].path, px),
    decreases s.len() - p,
{
    if p < s.len() && bytes_lt(t[s[p] as int].path, px) {
        lemma_place_exists(s, t, px, p + 1)
    } else {
        p
    }
}

proof fn lemma_listing_exists(t: Seq<TarEntry>, dir: Seq<u8>, n: int) -> (s: Seq<usize>)
    requires
        0 <= n <= t.len(),
        t.len() <= usize::MAX,
    ensures
        lists_children(s, t, dir, n),
    decreases n,
{
    if n == 0 {
        Seq::empty()
    } else {
        let s = lemma_listing_exists(t, dir, n - 1);
        let x = (n - 1) as usize;
        if is_child(t, dir, x as int) {
            let p = lemma_place_exists(s, t, t[x as int].path, 0);
            lemma_child_inserted(s, t, dir, x, p);
            s.insert(p, x)
        } else {
            s
        }
    }
}

/// A directory has one listing.
proof fn lemma_listing_unique(
    a: Seq<usize>,
    b: Seq<usize>,
    t: Seq<TarEntry>,
    dir: Seq<u8>,
    k: int,
)
    requires
        lists_children(a, t, dir, t.len() as int),
        lists_children(b, t, dir, t.len() as int),
        0 <= k <= a.len(),
        k <= b.len(),
        a.take(k) == b.take(k),
    ensures
        a == b,
    decreases a.len() - k,
{
    if k < a.len() && k < b.len() {
        assert(a[k] == b[k]) by {
            if a[k] != b[k] {
                lemma_kth_agrees(a, b, t, dir, k);
                lemma_kth_agrees(b, a, t, dir, k);
                lemma_lt_transitive(
                    t[a[k] as int].path,
                    t[b[k] as int].path,
                    t[a[k] as int].path,
                );
                lemma_lt_irreflexive(t[a[k] as int].path);
            }
        }
        assert(a.take(k + 1) =~= a.take(k).push(a[k]));
        assert(b.take(k + 1) =~= b.take(k).push(b[k]));
        lemma_listing_unique(a, b, t, dir, k + 1);
    } else {
        if k < a.len() {
            assert(b.take(k) =~= b);
            lemma_prefix_is_all(b, a, t, dir);
        }
        if k < b.len() {
            assert(a.take(k) =~= a);
            lemma_prefix_is_all(a, b, t, dir);
        }
        assert(a.take(k) =~= a);
        assert(b.take(k) =~= b);
    }
}

/// Two listings that agree up to `k` and differ there: the next of the one is
/// not before the next of the other.
proof fn lemma_kth_agrees(a: Seq<usize>, b: Seq<usize>, t: Seq<TarEntry>, dir: Seq<u8>, k: int)
    requires
        lists_children(a, t, dir, t.len() as int),
        lists_children(b, t, dir, t.len() as int),
        0 <= k < a.len(),
        k < b.len(),
        a.take(k) == b.take(k),
        a[k] != b[k],
    ensures
        bytes_lt(t[b[k] as int].path, t[a[k] as int].path),
{
    assert(a.contains(a[k]));
    assert(b.contains(a[k]));
    let j = choose|j: int| 0 <= j < b.len() && b[j] == a[k];
    if j < k {
        assert(a.take(k)[j] == a[j]);
        assert(b.take(k)[j] == b[j]);
        lemma_lt_irreflexive(t[a[k] as int].path);
        assert(bytes_lt(t[a[j] as int].path, t[a[k] as int].path));
    }
    assert(j > k);
    assert(bytes_lt(t[b[k] as int].path, t[b[j] as int].path));
}

/// A listing that is the beginning of another is all of it.
proof fn lemma_prefix_is_all(short: Seq<usize>, long: Seq<usize>, t: Seq<TarEntry>, dir: Seq<u8>)
    requires
        lists_children(short, t, dir, t.len() as int),
        lists_children(long, t, dir, t.len() as int),
        short.len() <= long.len(),
        long.take(short.len() as int) == short,
    ensures
        short.len() == long.len(),
{
    if short.len() < long.len() {
        let x = long[short.len() as int];
        assert(long.contains(x));
        assert(short.contains(x));
        let j = choose|j: int| 0 <= j < short.len() && short[j] == x;
        assert(long.take(short.len() as int)[j] == x);
        assert(long[j] == x);
        lemma_lt_irreflexive(t[x as int].path);
    }
}

/// A listing names every child once: each child has one place in it, whatever
/// stands in it is a child, and the names ascend.
pub proof fn law_listing_names_every_child_once(t: Seq<TarEntry>, dir: Seq<u8>, x: usize)
    requires
        t.len() <= usize::MAX,
    ensures
        children(t, dir).contains(x) <==> is_child(t, dir, x as int),
        children(t, dir).no_duplicates(),
        forall|i: int, j: int|
            0 <= i < j < children(t, dir).len() ==> bytes_lt(
                t[#[trigger] children(t, dir)[i] as int].path,
                t[#[trigger] children(t, dir)[j] as int].path,
            ),
{
    let w = lemma_listing_exists(t, dir, t.len() as int);
    let c = children(t, dir);
    assert(lists_children(c, t, dir, t.len() as int));
    assert forall|i: int, j: int| 0 <= i < c.len() && 0 <= j < c.len() && i != j implies c[i]
        != c[j] by {
        lemma_lt_irreflexive(t[c[i] as int].path);
        if i < j {
            assert(bytes_lt(t[c[i] as int].path, t[c[j] as int].path));
        } else {
            assert(bytes_lt(t[c[j] as int].path, t[c[i] as int].path));
        }
    }
}

/// One name in a directory.
pub struct DirEntry {
    pub name: Vec<u8>,
    pub ino: Inode,
    pub kind: Kind,
}

/// What an entry holds.
#[verifier::ext_equal]
pub struct DirEntryView {
    pub name: Seq<u8>,
    pub ino: Inode,
    pub kind: Kind,
}

impl View for DirEntry {
    type V = DirEntryView;

    open spec fn view(&self) -> DirEntryView {
        DirEntryView { name: self.name@, ino: self.ino, kind: self.kind }
    }
}

pub open spec fn entry_view(r: Result<Option<DirEntry>, FsErr>) -> Result<
    Option<DirEntryView>,
    FsErr,
> {
    match r {
        Ok(Some(e)) => Ok(Some(e@)),
        Ok(None) => Ok(None),
        Err(e) => Err(e),
    }
}

/// The name at a cursor: none behind the last.
pub open spec fn listed(t: Seq<TarEntry>, ino: Inode, cursor: u64) -> Result<
    Option<DirEntryView>,
    FsErr,
> {
    match inode_entry(t, ino) {
        None => Err(FsErr::BadInode),
        Some(d) => if d.kind != Kind::Dir {
            Err(FsErr::NotADirectory)
        } else if cursor >= children(t, d.path).len() {
            Ok(None)
        } else {
            let x = children(t, d.path)[cursor as int];
            Ok(
                Some(
                    DirEntryView {
                        name: name_in(d.path, t[x as int].path)->0,
                        ino: (x + 1) as u32,
                        kind: t[x as int].kind,
                    },
                ),
            )
        },
    }
}

fn head_of(dir: &Vec<u8>) -> (r: Vec<u8>)
    ensures
        r@ == dir_head(dir@),
{
    let mut head = copy_bytes(dir);
    if dir.len() == 1 && dir[0] == 0x2f {
        proof {
            assert(dir@ =~= seq![0x2fu8]);
        }
        return head;
    }
    proof {
        assert(dir@ != seq![0x2fu8]) by {
            if dir@ == seq![0x2fu8] {
                assert(dir@.len() == 1);
                assert(dir@[0] == 0x2f);
            }
        }
    }
    head.push(0x2f);
    head
}

/// The name that a path has in the directory with this head.
fn name_after(head: &Vec<u8>, path: &Vec<u8>, Ghost(dir): Ghost<Seq<u8>>) -> (r: Option<Vec<u8>>)
    requires
        head@ == dir_head(dir),
    ensures
        match r {
            Some(n) => name_in(dir, path@) == Some(n@),
            None => name_in(dir, path@) is None,
        },
{
    let k: usize = head.len();
    if path.len() <= k {
        return None;
    }
    let mut i: usize = 0;
    while i < k
        invariant
            i <= k,
            k == head@.len(),
            k < path@.len(),
            head@ == dir_head(dir),
            forall|j: int| 0 <= j < i ==> path@[j] == head@[j],
        decreases k - i,
    {
        if path[i] != head[i] {
            proof {
                assert(path@.take(k as int)[i as int] != head@[i as int]);
            }
            return None;
        }
        i = i + 1;
    }
    proof {
        assert(path@.take(k as int) =~= head@);
    }
    let mut out: Vec<u8> = Vec::new();
    let mut j: usize = k;
    let ghost rest = path@.skip(k as int);
    while j < path.len()
        invariant
            k <= j <= path@.len(),
            k == head@.len(),
            rest == path@.skip(k as int),
            out@ == rest.take(j - k),
            head@ == dir_head(dir),
            forall|i: int| 0 <= i < j - k ==> rest[i] != 0x2f,
        decreases path@.len() - j,
    {
        if path[j] == 0x2f {
            proof {
                assert(rest[j - k] == 0x2f);
                assert(rest.contains(0x2fu8));
            }
            return None;
        }
        out.push(path[j]);
        proof {
            assert(out@ =~= rest.take(j - k + 1));
        }
        j = j + 1;
    }
    proof {
        assert(out@ =~= rest);
        assert(!rest.contains(0x2fu8));
    }
    Some(out)
}

impl Tarfs {
    /// The children of a directory by name.
    fn list_children(&self, dir: &Vec<u8>) -> (r: Vec<usize>)
        requires
            self.wf(),
            self@.len() < u32::MAX,
        ensures
            r@ == children(self@, dir@),
    {
        let head = head_of(dir);
        let n: usize = self.entry_count();
        let mut out: Vec<usize> = Vec::new();
        let mut x: usize = 0;
        while x < n
            invariant
                self.wf(),
                x <= n,
                n == self@.len(),
                n < u32::MAX,
                head@ == dir_head(dir@),
                lists_children(out@, self@, dir@, x as int),
            decreases n - x,
        {
            let e = self.entry((x + 1) as u32).unwrap();
            let named: bool = name_after(&head, &e.path, Ghost(dir@)).is_some();
            let last: bool = match self.open(e.path.as_slice()) {
                Ok(i) => i as usize == x + 1,
                Err(_) => false,
            };
            proof {
                lemma_found_in_range(self@, e.path@);
            }
            if named && last {
                let mut p: usize = 0;
                while p < out.len()
                    invariant
                        self.wf(),
                        p <= out@.len(),
                        x < n,
                        n == self@.len(),
                        n < u32::MAX,
                        e.path@ == self@[x as int].path,
                        lists_children(out@, self@, dir@, x as int),
                        forall|i: int|
                            0 <= i < p ==> bytes_lt(
                                self@[#[trigger] out@[i] as int].path,
                                e.path@,
                            ),
                    ensures
                        p <= out@.len(),
                        forall|i: int|
                            0 <= i < p ==> bytes_lt(
                                self@[#[trigger] out@[i] as int].path,
                                e.path@,
                            ),
                        p < out@.len() ==> !bytes_lt(self@[out@[p as int] as int].path, e.path@),
                    decreases out@.len() - p,
                {
                    let y: usize = out[p];
                    proof {
                        assert(out@.contains(y));
                    }
                    let other = self.entry((y + 1) as u32).unwrap();
                    if !bytes_less(&other.path, &e.path) {
                        break ;
                    }
                    p = p + 1;
                }
                proof {
                    assert(is_child(self@, dir@, x as int));
                    lemma_child_inserted(out@, self@, dir@, x, p as int);
                }
                out.insert(p, x);
            } else {
                proof {
                    assert(!is_child(self@, dir@, x as int));
                }
            }
            x = x + 1;
        }
        proof {
            assert(lists_children(out@, self@, dir@, self@.len() as int));
            let c = children(self@, dir@);
            assert(lists_children(c, self@, dir@, self@.len() as int));
            assert(out@.take(0) =~= c.take(0));
            lemma_listing_unique(out@, c, self@, dir@, 0);
        }
        out
    }

    /// The name at `cursor` in a directory, in byte order; `None` behind the
    /// last one.
    pub fn readdir(&self, ino: Inode, cursor: u64) -> (r: Result<Option<DirEntry>, FsErr>)
        requires
            self.wf(),
            self@.len() < u32::MAX,
        ensures
            entry_view(r) == listed(self@, ino, cursor),
    {
        let d = match self.entry(ino) {
            Ok(d) => d,
            Err(e) => {
                return Err(e);
            },
        };
        match d.kind {
            Kind::Dir => {},
            Kind::Reg => {
                return Err(FsErr::NotADirectory);
            },
        }
        let list = self.list_children(&d.path);
        if cursor >= list.len() as u64 {
            return Ok(None);
        }
        let x: usize = list[cursor as usize];
        proof {
            law_listing_names_every_child_once(self@, d.path@, x);
            assert(list@.contains(x));
        }
        let e = self.entry((x + 1) as u32).unwrap();
        let head = head_of(&d.path);
        match name_after(&head, &e.path, Ghost(d.path@)) {
            Some(name) => Ok(Some(DirEntry { name, ino: (x + 1) as u32, kind: e.kind })),
            None => Ok(None),
        }
    }
}

proof fn lemma_found_in_range(t: Seq<TarEntry>, path: Seq<u8>)
    ensures
        find_path(t, path) matches Some(i) ==> 1 <= i <= t.len(),
    decreases t.len(),
{
    if t.len() > 0 {
        lemma_found_in_range(t.drop_last(), path);
    }
}

/// A listing on its way into a user buffer of `room` bytes.
#[derive(Clone, Copy, Debug, PartialEq, Eq, Structural)]
pub struct DirPack {
    pub room: u64,
    pub used: u64,
    pub cursor: u64,
    /// Whether a name found no room.
    pub full: bool,
}

impl DirPack {
    /// An empty buffer for the names from `cursor` on.
    pub fn new(room: u64, cursor: u64) -> (r: Self)
        ensures
            r == (DirPack { room, used: 0, cursor, full: false }),
    {
        DirPack { room, used: 0, cursor, full: false }
    }

    /// The listing after a record of `len` bytes was offered.
    pub open spec fn offered(self, len: u64) -> DirPack {
        if self.used + len <= self.room && self.cursor < u64::MAX {
            DirPack { used: (self.used + len) as u64, cursor: (self.cursor + 1) as u64, ..self }
        } else {
            DirPack { full: true, ..self }
        }
    }

    /// Offers the record of the name at the cursor. Tells whether it goes into
    /// the buffer, at offset `used` before the call.
    pub fn offer(&mut self, len: u64) -> (r: bool)
        requires
            old(self).used <= old(self).room,
        ensures
            *final(self) == old(self).offered(len),
            final(self).used <= final(self).room,
            r == (old(self).used + len <= old(self).room && old(self).cursor < u64::MAX),
    {
        if len > self.room - self.used || self.cursor == u64::MAX {
            self.full = true;
            return false;
        }
        self.used = self.used + len;
        self.cursor = self.cursor + 1;
        true
    }

    /// Bytes written and the cursor of the next call. A buffer that is too
    /// small for even one name is refused.
    pub open spec fn result(self) -> Result<(u64, u64), FsErr> {
        if self.full && self.used == 0 {
            Err(FsErr::BadRange)
        } else {
            Ok((self.used, self.cursor))
        }
    }

    /// The outcome of the listing.
    pub fn outcome(&self) -> (r: Result<(u64, u64), FsErr>)
        ensures
            r == self.result(),
    {
        if self.full && self.used == 0 {
            Err(FsErr::BadRange)
        } else {
            Ok((self.used, self.cursor))
        }
    }
}

/// A listing loses no name: a record that went into the buffer moves the cursor
/// on by one, and one that did not leaves it, so that the next call starts with
/// it.
pub proof fn law_listing_goes_on_where_it_stopped(p: DirPack, len: u64)
    requires
        p.used <= p.room,
        p.cursor < u64::MAX,
    ensures
        p.used + len <= p.room ==> p.offered(len).cursor == p.cursor + 1 && p.offered(len).used
            == p.used + len,
        p.used + len > p.room ==> p.offered(len).cursor == p.cursor && p.offered(len).used
            == p.used && p.offered(len).full,
        p.used == 0 && len > p.room ==> p.offered(len).result() == Err::<(u64, u64), FsErr>(
            FsErr::BadRange,
        ),
{
}

/// A name is in a directory exactly if the path is the directory, one slash and
/// the name, and the name has no slash of its own. The root needs no further
/// slash.
pub proof fn law_a_name_lies_directly_below(dir: Seq<u8>, name: Seq<u8>)
    requires
        name.len() > 0,
        !name.contains(0x2fu8),
    ensures
        dir != seq![0x2fu8] ==> name_in(dir, dir + seq![0x2fu8] + name) == Some(name),
        name_in(seq![0x2fu8], seq![0x2fu8] + name) == Some(name),
{
    let a = dir + seq![0x2fu8] + name;
    assert(a.take((dir.len() + 1) as int) =~= dir.push(0x2fu8));
    assert(a.skip((dir.len() + 1) as int) =~= name);
    let r = seq![0x2fu8] + name;
    assert(r.take(1) =~= seq![0x2fu8]);
    assert(r.skip(1) =~= name);
}

/// What has a name in a directory begins with the directory and its slash.
pub proof fn law_only_children_have_names(dir: Seq<u8>, path: Seq<u8>)
    ensures
        name_in(dir, path) matches Some(n) ==> {
            &&& n.len() > 0 && !n.contains(0x2fu8)
            &&& dir != seq![0x2fu8] ==> path == dir + seq![0x2fu8] + n
            &&& dir == seq![0x2fu8] ==> path == dir + n
        },
{
    if let Some(n) = name_in(dir, path) {
        let h = dir_head(dir);
        assert(path =~= path.take(h.len() as int) + path.skip(h.len() as int));
        if dir != seq![0x2fu8] {
            assert(path =~= dir + seq![0x2fu8] + n);
        } else {
            assert(path =~= dir + n);
        }
    }
}

/// Names are ordered byte by byte, and no two orders hold at once.
pub proof fn law_names_have_one_order(a: Seq<u8>, b: Seq<u8>)
    ensures
        !(bytes_lt(a, b) && bytes_lt(b, a)),
        bytes_lt(a, b) || bytes_lt(b, a) || a == b,
        a.len() > 0 && b.len() > 0 && a[0] < b[0] ==> bytes_lt(a, b),
        a.len() == 0 && b.len() > 0 ==> bytes_lt(a, b),
    decreases a.len(),
{
    if a.len() > 0 && b.len() > 0 && a[0] == b[0] {
        law_names_have_one_order(a.skip(1), b.skip(1));
        if a.skip(1) == b.skip(1) {
            assert(a =~= seq![a[0]] + a.skip(1));
            assert(b =~= seq![b[0]] + b.skip(1));
        }
    } else if a.len() == 0 && b.len() == 0 {
        assert(a =~= b);
    }
}

/// Listing a directory gives its children one by one: at each place the child of
/// that place with its own name, number and kind, and nothing after the last.
/// Only directories can be listed.
pub proof fn law_a_listing_gives_children_one_by_one(t: Seq<TarEntry>, ino: Inode, cursor: u64)
    requires
        t.len() < u32::MAX,
    ensures
        match listed(t, ino, cursor) {
            Err(e) => {
                &&& e == FsErr::BadInode <==> inode_entry(t, ino) is None
                &&& e == FsErr::NotADirectory <==> inode_entry(t, ino) is Some && inode_entry(
                    t,
                    ino,
                )->0.kind != Kind::Dir
            },
            Ok(None) => inode_entry(t, ino) is Some && cursor >= children(
                t,
                inode_entry(t, ino)->0.path,
            ).len(),
            Ok(Some(d)) => {
                let dir = inode_entry(t, ino)->0;
                &&& dir.kind == Kind::Dir
                &&& 1 <= d.ino <= t.len()
                &&& t[d.ino - 1].kind == d.kind
                &&& is_child(t, dir.path, d.ino - 1)
                &&& name_in(dir.path, t[d.ino - 1].path) == Some(d.name)
                &&& children(t, dir.path)[cursor as int] == d.ino - 1
            },
        },
{
    if let Some(dir) = inode_entry(t, ino) {
        if cursor < children(t, dir.path).len() {
            let x = children(t, dir.path)[cursor as int];
            law_listing_names_every_child_once(t, dir.path, x);
            assert(children(t, dir.path).contains(x));
        }
    }
}

/// A listing that gave something, or that had nothing to give, ends well; a
/// buffer that is too small for the first name is refused.
pub proof fn law_a_listing_ends_with_its_length(p: DirPack)
    ensures
        p.used > 0 || !p.full ==> p.result() == Ok::<(u64, u64), FsErr>((p.used, p.cursor)),
        p.used == 0 && p.full ==> p.result() == Err::<(u64, u64), FsErr>(FsErr::BadRange),
{
}

/// Names that begin alike are ordered by what follows, and a name comes
/// before one that goes on.
pub proof fn law_names_are_ordered_by_their_first_difference(c: u8, a: Seq<u8>, b: Seq<u8>)
    ensures
        bytes_lt(seq![c] + a, seq![c] + b) == bytes_lt(a, b),
        !bytes_lt(a, Seq::empty()),
        b.len() > 0 ==> bytes_lt(Seq::empty(), b),
{
    assert((seq![c] + a).skip(1) =~= a);
    assert((seq![c] + b).skip(1) =~= b);
    assert((seq![c] + a)[0] == c && (seq![c] + b)[0] == c);
}

} // verus!
