//! What a mounted archive has to do with what was archived.

#[allow(unused_imports)]
use crate::tar::{
    all_zero, canonical, entry_of, field_str, find_path, header, kind_of, page_lba, sectors_for,
    steps_left, walk_step, walked, HeaderView, Kind, MountErr, TarEntry, WalkView,
};
use vstd::prelude::*;

verus! {

/// A member of an archive: its header block and the sectors of its data.
#[verifier::ext_equal]
pub struct Member {
    pub head: Seq<u8>,
    pub data: Seq<Seq<u8>>,
}

/// What a member's header says.
pub open spec fn head_of(m: Member) -> HeaderView {
    header(m.head, 0)->Ok_0
}

/// The header is one, and as much data follows as it says.
pub open spec fn member_ok(m: Member) -> bool {
    &&& !all_zero(m.head)
    &&& header(m.head, 0) is Ok
    &&& m.data.len() == sectors_for(head_of(m).size)
}

/// The sectors of an archive with these members.
pub open spec fn packed(ms: Seq<Member>) -> Seq<Seq<u8>>
    decreases ms.len(),
{
    if ms.len() == 0 {
        Seq::empty()
    } else {
        packed(ms.drop_last()).push(ms.last().head) + ms.last().data
    }
}

/// The entry that member `i` gets; none if it is neither a file nor a directory.
pub open spec fn member_entry(ms: Seq<Member>, i: int) -> Option<TarEntry> {
    entry_of(head_of(ms[i]), packed(ms.take(i)).len() as u64)
}

/// The entries of an archive with these members, in order.
pub open spec fn listed(ms: Seq<Member>) -> Seq<TarEntry>
    decreases ms.len(),
{
    if ms.len() == 0 {
        Seq::empty()
    } else {
        match member_entry(ms, ms.len() - 1) {
            Some(e) => listed(ms.drop_last()).push(e),
            None => listed(ms.drop_last()),
        }
    }
}

/// A walk that has read these members.
spec fn walk_after(ms: Seq<Member>) -> WalkView {
    WalkView {
        lba: packed(ms).len() as int,
        prev_zero: false,
        done: false,
        entries: listed(ms),
    }
}

/// The archive of the first members begins that of all of them.
proof fn lemma_packed_prefix(ms: Seq<Member>, i: int)
    requires
        0 <= i < ms.len(),
    ensures
        ({
            let at = packed(ms.take(i)).len() as int;
            &&& at + ms[i].data.len() < packed(ms).len()
            &&& packed(ms)[at] == ms[i].head
            &&& forall|j: int|
                0 <= j < ms[i].data.len() ==> #[trigger] packed(ms)[at + 1 + j] == ms[i].data[j]
        }),
    decreases ms.len(),
{
    let front = ms.drop_last();
    if i == ms.len() - 1 {
        assert(ms.take(i) =~= front);
        let at = packed(front).len() as int;
        assert forall|j: int| 0 <= j < ms[i].data.len() implies #[trigger] packed(ms)[at + 1 + j]
            == ms[i].data[j] by {}
    } else {
        lemma_packed_prefix(front, i);
        assert(front.take(i) =~= ms.take(i));
        assert(front[i] == ms[i]);
        let at = packed(ms.take(i)).len() as int;
        assert(packed(ms)[at] == packed(front)[at]);
        assert forall|j: int| 0 <= j < ms[i].data.len() implies #[trigger] packed(ms)[at + 1 + j]
            == ms[i].data[j] by {
            assert(packed(ms)[at + 1 + j] == packed(front)[at + 1 + j]);
        }
    }
}

/// A walk reads the members one by one.
proof fn lemma_walk_goes_on(ms: Seq<Member>, after: Seq<Seq<u8>>, k: int)
    requires
        forall|i: int| 0 <= i < ms.len() ==> member_ok(#[trigger] ms[i]),
        0 <= k <= ms.len(),
    ensures
        walked(walk_after(ms.take(k)), packed(ms) + after) == walked(
            walk_after(ms),
            packed(ms) + after,
        ),
    decreases ms.len() - k,
{
    let disk = packed(ms) + after;
    if k == ms.len() {
        assert(ms.take(k) =~= ms);
    } else {
        let here = ms.take(k);
        let next = ms.take(k + 1);
        lemma_packed_prefix(ms, k);
        assert(next.drop_last() =~= here);
        assert(next.last() == ms[k]);
        assert(member_ok(ms[k]));
        let w = walk_after(here);
        assert(disk[w.lba] == ms[k].head);
        assert(header(ms[k].head, w.lba as u64) == header(ms[k].head, 0));
        assert(next.take(k) =~= here);
        assert(next[k] == ms[k]);
        assert(walk_step(w, disk[w.lba]) == Ok::<WalkView, MountErr>(
            walk_after(next),
        ));
        lemma_walk_goes_on(ms, after, k + 1);
    }
}

/// Mounting lists an archive as it was packed: every file and directory in it
/// gets its entry, in order, and there are no others. Two zero blocks end the
/// archive, whatever follows them; so does the end of the disk.
pub proof fn law_mount_lists_what_was_packed(
    ms: Seq<Member>,
    z: Seq<u8>,
    zz: Seq<u8>,
    rest: Seq<Seq<u8>>,
)
    requires
        forall|i: int| 0 <= i < ms.len() ==> member_ok(#[trigger] ms[i]),
        all_zero(z),
        all_zero(zz),
    ensures
        ({
            let start = WalkView { lba: 0, prev_zero: false, done: false, entries: Seq::empty() };
            let ended = walked(start, packed(ms).push(z).push(zz) + rest);
            let cut = walked(start, packed(ms));
            &&& ended is Ok && ended->Ok_0.entries == listed(ms)
            &&& cut is Ok && cut->Ok_0.entries == listed(ms)
        }),
{
    let start = WalkView { lba: 0, prev_zero: false, done: false, entries: Seq::empty() };
    assert(ms.take(0) =~= Seq::<Member>::empty());
    assert(walk_after(ms.take(0)) =~= start);
    let none = Seq::<Seq<u8>>::empty();
    assert(packed(ms) + none =~= packed(ms));
    lemma_walk_goes_on(ms, none, 0);
    let after = seq![z, zz] + rest;
    let disk = packed(ms) + after;
    assert(disk =~= packed(ms).push(z).push(zz) + rest);
    lemma_walk_goes_on(ms, after, 0);
    let w = walk_after(ms);
    assert(disk[w.lba] == z);
    let w1 = WalkView { lba: w.lba + 1, prev_zero: true, ..w };
    assert(disk[w1.lba] == zz);
    assert(walked(w, disk) == walked(w1, disk));
}

/// A file's data is where its entry says: the sectors from its first data sector
/// on are those that were packed for it, and the sectors of page `p` start eight
/// times `p` further on. A disk has fewer sectors than numbers for them.
pub proof fn law_files_have_the_data_that_was_packed(
    ms: Seq<Member>,
    rest: Seq<Seq<u8>>,
    i: int,
    p: u64,
    j: int,
)
    requires
        0 <= i < ms.len(),
        member_ok(ms[i]),
        member_entry(ms, i) is Some,
        member_entry(ms, i)->0.kind == Kind::Reg,
        packed(ms).len() + rest.len() <= u64::MAX,
        0 <= j < ms[i].data.len(),
    ensures
        ({
            let e = member_entry(ms, i)->0;
            let disk = packed(ms) + rest;
            &&& listed(ms).contains(e)
            &&& e.size == head_of(ms[i]).size
            &&& disk[e.data_sector + j] == ms[i].data[j]
            &&& page_lba(e, p) matches Ok(lba) ==> lba == e.data_sector + 8 * p && 8 * p
                < ms[i].data.len()
        }),
{
    lemma_packed_prefix(ms, i);
    lemma_listed(ms, i);
    let e = member_entry(ms, i)->0;
    let at = packed(ms.take(i)).len() as int;
    assert(e.data_sector == at + 1);
    assert(packed(ms)[at + 1 + j] == ms[i].data[j]);
    if page_lba(e, p) is Ok {
        assert(p * 4096 < e.size);
        assert(ms[i].data.len() == (e.size + 511) / 512);
        assert(8 * p < ms[i].data.len());
        assert(e.data_sector + 8 * p <= u64::MAX);
    }
}

/// Every member's entry is listed.
proof fn lemma_listed(ms: Seq<Member>, i: int)
    requires
        0 <= i < ms.len(),
        member_entry(ms, i) is Some,
    ensures
        listed(ms).contains(member_entry(ms, i)->0),
    decreases ms.len(),
{
    let front = ms.drop_last();
    let e = member_entry(ms, i)->0;
    if i == ms.len() - 1 {
        assert(listed(ms).last() == e);
    } else {
        assert(front.take(i) =~= ms.take(i));
        lemma_listed(front, i);
        let k = choose|k: int| 0 <= k < listed(front).len() && listed(front)[k] == e;
        assert(listed(ms)[k] == e);
    }
}

/// A path names what was packed last under it, and a path that was never packed
/// names nothing.
pub proof fn law_a_path_names_its_last_entry(entries: Seq<TarEntry>, path: Seq<u8>)
    ensures
        match find_path(entries, path) {
            Some(ino) => {
                &&& 1 <= ino <= entries.len()
                &&& entries[ino - 1].path == path
                &&& forall|k: int| ino <= k < entries.len() ==> (#[trigger] entries[k]).path != path
            },
            None => forall|k: int| 0 <= k < entries.len() ==> (#[trigger] entries[k]).path != path,
        },
    decreases entries.len(),
{
    if entries.len() > 0 && entries.last().path != path {
        let front = entries.drop_last();
        law_a_path_names_its_last_entry(front, path);
        assert forall|k: int| 0 <= k < front.len() implies front[k] == #[trigger] entries[k] by {}
    }
}

/// A header that a walk read, and the block it was in.
#[verifier::ext_equal]
pub struct WalkedHeader {
    pub lba: int,
    pub head: HeaderView,
}

/// The headers that a walk from `w` on reads, in order.
pub open spec fn headers(w: WalkView, disk: Seq<Seq<u8>>) -> Seq<WalkedHeader>
    decreases steps_left(w, disk.len() as int),
{
    if w.done || w.lba >= disk.len() || w.lba < 0 {
        Seq::empty()
    } else {
        match walk_step(w, disk[w.lba]) {
            Err(_) => Seq::empty(),
            Ok(n) => {
                let rest = if n.done {
                    Seq::empty()
                } else {
                    headers(n, disk)
                };
                if all_zero(disk[w.lba]) {
                    rest
                } else {
                    seq![
                        WalkedHeader { lba: w.lba, head: header(disk[w.lba], w.lba as u64)->Ok_0 },
                    ] + rest
                }
            },
        }
    }
}

/// Whether the filesystem keeps what a header is for: files and directories
/// with a name.
pub open spec fn keeps(h: WalkedHeader) -> bool {
    kind_of(h.head.typeflag) is Some && h.head.path.len() > 0
}

/// How many of these headers are kept.
pub open spec fn kept(hs: Seq<WalkedHeader>) -> int
    decreases hs.len(),
{
    if hs.len() == 0 {
        0
    } else {
        kept(hs.drop_last()) + (if keeps(hs.last()) {
            1int
        } else {
            0
        })
    }
}

/// The entries of the headers that are kept.
spec fn kept_entries(hs: Seq<WalkedHeader>) -> Seq<TarEntry>
    decreases hs.len(),
{
    if hs.len() == 0 {
        Seq::empty()
    } else {
        match entry_of(hs.last().head, hs.last().lba as u64) {
            Some(e) => kept_entries(hs.drop_last()).push(e),
            None => kept_entries(hs.drop_last()),
        }
    }
}

proof fn lemma_kept_entries_add(a: Seq<WalkedHeader>, b: Seq<WalkedHeader>)
    ensures
        kept_entries(a + b) == kept_entries(a) + kept_entries(b),
    decreases b.len(),
{
    if b.len() == 0 {
        assert(a + b =~= a);
        assert(kept_entries(a) + kept_entries(b) =~= kept_entries(a));
    } else {
        lemma_kept_entries_add(a, b.drop_last());
        assert((a + b).drop_last() =~= a + b.drop_last());
        assert((a + b).last() == b.last());
        assert(kept_entries(a + b) =~= kept_entries(a) + kept_entries(b));
    }
}

/// A walk lists the headers that it reads and keeps, and every header is the one
/// in its block.
proof fn lemma_walk_lists_its_headers(w: WalkView, disk: Seq<Seq<u8>>)
    ensures
        walked(w, disk) matches Ok(n) ==> n.entries == w.entries + kept_entries(headers(w, disk)),
        forall|j: int|
            0 <= j < headers(w, disk).len() ==> header_in((#[trigger] headers(w, disk)[j]), disk),
    decreases steps_left(w, disk.len() as int),
{
    let hs = headers(w, disk);
    if w.done || w.lba >= disk.len() || w.lba < 0 {
        assert(w.entries + kept_entries(hs) =~= w.entries);
    } else {
        match walk_step(w, disk[w.lba]) {
            Err(_) => {},
            Ok(n) => {
                if n.done {
                    assert(all_zero(disk[w.lba]));
                    assert(w.entries + kept_entries(hs) =~= w.entries);
                } else {
                    lemma_walk_lists_its_headers(n, disk);
                    let rest = headers(n, disk);
                    if !all_zero(disk[w.lba]) {
                        let h = WalkedHeader {
                            lba: w.lba,
                            head: header(disk[w.lba], w.lba as u64)->Ok_0,
                        };
                        let one = seq![h];
                        assert(hs == one + rest);
                        lemma_kept_entries_add(one, rest);
                        assert(one.drop_last() =~= Seq::<WalkedHeader>::empty());
                        assert(kept_entries(one.drop_last()) =~= Seq::<TarEntry>::empty());
                        assert(n.entries =~= w.entries + kept_entries(one));
                        assert(n.entries + kept_entries(rest) =~= w.entries + (kept_entries(one)
                            + kept_entries(rest)));
                        assert forall|j: int| 0 <= j < hs.len() implies header_in(
                            (#[trigger] hs[j]),
                            disk,
                        ) by {
                            if j > 0 {
                                assert(hs[j] == rest[j - 1]);
                            }
                        }
                    }
                }
            },
        }
    }
}

/// The header is the one in its block, and its path is made of the block's two
/// name fields.
pub open spec fn header_in(h: WalkedHeader, disk: Seq<Seq<u8>>) -> bool {
    &&& 0 <= h.lba < disk.len()
    &&& header(disk[h.lba], h.lba as u64) == Ok::<HeaderView, MountErr>(h.head)
    &&& h.head.path == canonical(
        field_str(disk[h.lba].subrange(345, 500)),
        field_str(disk[h.lba].subrange(0, 100)),
    )
}

/// Header `j` is the last one that is kept under this path.
pub open spec fn last_under(hs: Seq<WalkedHeader>, path: Seq<u8>, j: int) -> bool {
    &&& 0 <= j < hs.len()
    &&& keeps(hs[j]) && hs[j].head.path == path
    &&& forall|k: int| j < k < hs.len() && keeps(#[trigger] hs[k]) ==> hs[k].head.path != path
}

proof fn lemma_found_header(hs: Seq<WalkedHeader>, path: Seq<u8>)
    ensures
        kept_entries(hs).len() == kept(hs),
        match find_path(kept_entries(hs), path) {
            Some(i) => exists|j: int| #[trigger] last_under(hs, path, j) && i == kept(hs.take(j + 1)),
            None => forall|j: int|
                0 <= j < hs.len() && keeps(#[trigger] hs[j]) ==> hs[j].head.path != path,
        },
    decreases hs.len(),
{
    if hs.len() > 0 {
        let front = hs.drop_last();
        lemma_found_header(front, path);
        let last = hs.last();
        let es = kept_entries(hs);
        assert((entry_of(last.head, last.lba as u64) is Some) == keeps(last));
        if keeps(last) {
            assert(es.drop_last() =~= kept_entries(front));
            assert(es.last().path == last.head.path);
        }
        if keeps(last) && last.head.path == path {
            assert(last_under(hs, path, hs.len() - 1));
            assert(hs.take(hs.len() as int) =~= hs);
        } else {
            assert(find_path(es, path) == find_path(kept_entries(front), path));
            match find_path(kept_entries(front), path) {
                Some(i) => {
                    let j = choose|j: int| #[trigger]
                        last_under(front, path, j) && i == kept(front.take(j + 1));
                    assert(front[j] == hs[j]);
                    assert forall|k: int| j < k < hs.len() && keeps(#[trigger] hs[k]) implies hs[k].head.path
                        != path by {
                        if k < front.len() {
                            assert(front[k] == hs[k]);
                        }
                    }
                    assert(last_under(hs, path, j));
                    assert(front.take(j + 1) =~= hs.take(j + 1));
                },
                None => {
                    assert forall|j: int| 0 <= j < hs.len() && keeps(#[trigger] hs[j]) implies hs[j].head.path
                        != path by {
                        if j < front.len() {
                            assert(front[j] == hs[j]);
                        }
                    }
                },
            }
        }
    }
}

/// Opening a path finds what the archive has under it: over the headers that a
/// mount reads, each of which is the one in its block, a path is found exactly if
/// it is not empty and a header of a file or directory has it, and the inode is
/// that of the last such header, counting from one over those that are kept.
pub proof fn law_open_finds_the_last_header(disk: Seq<Seq<u8>>, path: Seq<u8>)
    requires
        walked(
            WalkView { lba: 0, prev_zero: false, done: false, entries: Seq::empty() },
            disk,
        ) is Ok,
    ensures
        ({
            let start = WalkView { lba: 0, prev_zero: false, done: false, entries: Seq::empty() };
            let entries = walked(start, disk)->Ok_0.entries;
            let hs = headers(start, disk);
            &&& entries.len() == kept(hs)
            &&& forall|j: int| 0 <= j < hs.len() ==> header_in((#[trigger] hs[j]), disk)
            &&& find_path(entries, path) is Some <==> path.len() > 0 && exists|j: int|
                0 <= j < hs.len() && kind_of((#[trigger] hs[j]).head.typeflag) is Some
                    && hs[j].head.path == path
            &&& find_path(entries, path) matches Some(i) ==> i >= 1 && exists|j: int| #[trigger]
                last_under(hs, path, j) && i == kept(hs.take(j + 1))
        }),
{
    let start = WalkView { lba: 0, prev_zero: false, done: false, entries: Seq::empty() };
    let entries = walked(start, disk)->Ok_0.entries;
    let hs = headers(start, disk);
    lemma_walk_lists_its_headers(start, disk);
    assert(entries =~= kept_entries(hs));
    lemma_found_header(hs, path);
    law_a_path_names_its_last_entry(entries, path);
    if path.len() > 0 && exists|j: int|
        0 <= j < hs.len() && kind_of((#[trigger] hs[j]).head.typeflag) is Some && hs[j].head.path
            == path {
        let j = choose|j: int|
            0 <= j < hs.len() && kind_of((#[trigger] hs[j]).head.typeflag) is Some
                && hs[j].head.path == path;
        assert(keeps(hs[j]));
    }
}

} // verus!
