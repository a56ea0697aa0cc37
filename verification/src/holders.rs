//! Who holds a shared region: handles, channels that wait for a socket, and
//! connections. A region's count of holders is exactly their number, whatever
//! the manager and the network thread do.

#[allow(unused_imports)]
use crate::handle::{Fd, HandlesView, Slot, FD_MAX};
#[allow(unused_imports)]
use crate::holds::{lemma_times_add, refs_of, times_in, Holds};
#[allow(unused_imports)]
use crate::memops::handles_or_empty;
#[allow(unused_imports)]
use crate::net::{
    is_stream, lemma_filter_cons, other_channels, revoked_sockets, stream_requests, turned_away,
    ConnState, SocketReq,
};
#[allow(unused_imports)]
use crate::net_turn::{awaits, skip_idle, NetEvent, NetStage, NetState, TurnView};
#[allow(unused_imports)]
use crate::tables::{lemma_listed32, sorted32};
#[allow(unused_imports)]
use crate::teardown::{handle_list, lemma_handles_frame, region_behind};
#[allow(unused_imports)]
use crate::world::World;
use vstd::prelude::*;

verus! {

/// The handles that refer to the region at `pa`, by process and number.
pub open spec fn handle_keys(handles: Map<u16, HandlesView>, pa: u64) -> Set<(u16, Fd)> {
    Set::new(
        |k: (u16, Fd)|
            handles.contains_key(k.0) && handles[k.0].slots.contains_key(k.1) && region_behind(
                handles[k.0].slots[k.1].handle,
            ) == Some(pa),
    )
}

/// How many requests of a queue are for the channel at `pa`.
pub open spec fn waiting_in(q: Seq<SocketReq>, pa: u64) -> int
    decreases q.len(),
{
    if q.len() == 0 {
        0
    } else {
        waiting_in(q.skip(1), pa) + (if q[0].netchan.pa == pa {
            1int
        } else {
            0
        })
    }
}

/// The same for the queues of all harts from hart `h` on.
pub open spec fn waiting(reqs: Seq<Seq<SocketReq>>, h: int, pa: u64) -> int
    decreases reqs.len() - h,
{
    if h >= reqs.len() {
        0
    } else {
        waiting_in(reqs[h], pa) + waiting(reqs, h + 1, pa)
    }
}

/// The holders of every region are the handles, the waiting channels and
/// whoever `others` counts.
pub open spec fn counted(w: World, others: spec_fn(u64) -> int) -> bool {
    &&& forall|pa: u64| (#[trigger] handle_keys(w.handles, pa)).finite()
    &&& forall|pa: u64| #[trigger]
        refs_of(w.regions, pa) == handle_keys(w.handles, pa).len() + waiting(w.net.reqs, 0, pa)
            + others(pa)
    &&& forall|pa: u64| #[trigger] others(pa) >= 0
}

proof fn lemma_waiting_positive(reqs: Seq<Seq<SocketReq>>, h: int, pa: u64)
    ensures
        waiting(reqs, h, pa) >= 0,
    decreases reqs.len() - h,
{
    if h < reqs.len() {
        lemma_waiting_in_positive(reqs[h], pa);
        lemma_waiting_positive(reqs, h + 1, pa);
    }
}

proof fn lemma_waiting_in_positive(q: Seq<SocketReq>, pa: u64)
    ensures
        waiting_in(q, pa) >= 0,
    decreases q.len(),
{
    if q.len() > 0 {
        lemma_waiting_in_positive(q.skip(1), pa);
    }
}

proof fn lemma_waiting_in_push(q: Seq<SocketReq>, r: SocketReq, pa: u64)
    ensures
        waiting_in(q.push(r), pa) == waiting_in(q, pa) + (if r.netchan.pa == pa {
            1int
        } else {
            0
        }),
    decreases q.len(),
{
    if q.len() == 0 {
        assert(q.push(r).skip(1) =~= Seq::empty());
        assert(waiting_in(q.push(r).skip(1), pa) == 0);
    } else {
        lemma_waiting_in_push(q.skip(1), r, pa);
        assert(q.push(r).skip(1) =~= q.skip(1).push(r));
    }
}

proof fn lemma_waiting_push(reqs: Seq<Seq<SocketReq>>, at: int, r: SocketReq, h: int, pa: u64)
    requires
        0 <= h,
        0 <= at < reqs.len(),
    ensures
        waiting(reqs.update(at, reqs[at].push(r)), h, pa) == waiting(reqs, h, pa) + (if at >= h
            && r.netchan.pa == pa {
            1int
        } else {
            0
        }),
    decreases reqs.len() - h,
{
    if h < reqs.len() {
        lemma_waiting_push(reqs, at, r, h + 1, pa);
        if at == h {
            lemma_waiting_in_push(reqs[at], r, pa);
        }
    }
}

/// Sharing a region gives it one holder, its handle; without a number for the
/// handle the region is gone again.
pub proof fn law_a_shared_region_has_its_handle(
    w: World,
    others: spec_fn(u64) -> int,
    pid: u16,
    root_pa: u64,
    va: u64,
    size: u64,
    pa: u64,
    slot: Slot,
    hart: int,
)
    requires
        counted(w, others),
        handles_or_empty(w, pid).wf(),
        !w.regions.contains_key(pa),
        region_behind(slot.handle) == Some(pa),
    ensures
        counted(w.region_shared(pid, root_pa, va, size, pa, slot, hart), others),
{
    let v = w.region_shared(pid, root_pa, va, size, pa, slot, hart);
    let h = handles_or_empty(w, pid);
    lemma_waiting_positive(w.net.reqs, 0, pa);
    assert(refs_of(w.regions, pa) == 0);
    assert(handle_keys(w.handles, pa).len() == 0);
    if h.next_id > FD_MAX {
        assert forall|k: u64| (#[trigger] handle_keys(v.handles, k)).finite() by {
            assert(handle_keys(v.handles, k) =~= handle_keys(w.handles, k));
        }
        assert forall|k: u64| #[trigger]
            refs_of(v.regions, k) == handle_keys(v.handles, k).len() + waiting(v.net.reqs, 0, k)
                + others(k) by {
            assert(handle_keys(v.handles, k) =~= handle_keys(w.handles, k));
            assert(refs_of(w.regions, k) == handle_keys(w.handles, k).len() + waiting(
                w.net.reqs,
                0,
                k,
            ) + others(k));
            assert(refs_of(v.regions, k) == refs_of(w.regions, k));
        }
    } else {
        let key = (pid, h.next_id);
        assert forall|k: u64| (#[trigger] handle_keys(v.handles, k)).finite() by {
            if k == pa {
                assert(handle_keys(v.handles, k) =~= handle_keys(w.handles, k).insert(key));
            } else {
                assert(handle_keys(v.handles, k) =~= handle_keys(w.handles, k));
            }
        }
        assert forall|k: u64| #[trigger]
            refs_of(v.regions, k) == handle_keys(v.handles, k).len() + waiting(v.net.reqs, 0, k)
                + others(k) by {
            assert(refs_of(w.regions, k) == handle_keys(w.handles, k).len() + waiting(
                w.net.reqs,
                0,
                k,
            ) + others(k));
            if k == pa {
                assert(handle_keys(v.handles, k) =~= handle_keys(w.handles, k).insert(key));
                assert(!handle_keys(w.handles, k).contains(key));
            } else {
                assert(handle_keys(v.handles, k) =~= handle_keys(w.handles, k));
            }
        }
    }
}

/// A channel that waits for its socket is held by its request as well.
pub proof fn law_a_waiting_channel_is_held(
    w: World,
    others: spec_fn(u64) -> int,
    hart: u64,
    req: SocketReq,
)
    requires
        counted(w, others),
        w.regions.contains_key(req.netchan.pa),
        w.regions[req.netchan.pa].refs < u32::MAX,
    ensures
        counted(w.channel_requested(hart, req), others),
{
    let v = w.channel_requested(hart, req);
    assert forall|k: u64| #[trigger]
        refs_of(v.regions, k) == handle_keys(v.handles, k).len() + waiting(v.net.reqs, 0, k)
            + others(k) by {
        assert(refs_of(w.regions, k) == handle_keys(w.handles, k).len() + waiting(w.net.reqs, 0, k)
            + others(k));
        if hart < w.net.reqs.len() && w.net.reqs[hart as int].len() < 7 {
            lemma_waiting_push(w.net.reqs, hart as int, req, 0, k);
        }
    }
}

/// A table without one of its handles, which is dropped.
pub open spec fn one_closed(w: World, pid: u16, root_pa: u64, fd: Fd, hart: int) -> World {
    let h = w.handles[pid];
    World {
        handles: w.handles.insert(pid, HandlesView { slots: h.slots.remove(fd), ..h }),
        ..w.handle_dropped(root_pa, h.slots[fd].handle, hart)
    }
}

proof fn lemma_one_closed(
    w: World,
    others: spec_fn(u64) -> int,
    pid: u16,
    root_pa: u64,
    fd: Fd,
    hart: int,
)
    requires
        counted(w, others),
        w.handles.contains_key(pid),
        w.handles[pid].slots.contains_key(fd),
    ensures
        counted(one_closed(w, pid, root_pa, fd, hart), others),
{
    let v = one_closed(w, pid, root_pa, fd, hart);
    let key = (pid, fd);
    let behind = region_behind(w.handles[pid].slots[fd].handle);
    assert forall|k: u64| (#[trigger] handle_keys(v.handles, k)).finite() by {
        assert(handle_keys(v.handles, k) =~= handle_keys(w.handles, k).remove(key));
    }
    assert forall|k: u64| #[trigger]
        refs_of(v.regions, k) == handle_keys(v.handles, k).len() + waiting(v.net.reqs, 0, k)
            + others(k) by {
        assert(handle_keys(v.handles, k) =~= handle_keys(w.handles, k).remove(key));
        assert(refs_of(w.regions, k) == handle_keys(w.handles, k).len() + waiting(w.net.reqs, 0, k)
            + others(k));
        lemma_waiting_positive(w.net.reqs, 0, k);
        assert(others(k) >= 0);
        assert(handle_keys(w.handles, k).contains(key) == (behind == Some(k)));
        if behind == Some(k) {
            assert(handle_keys(w.handles, k).len() > 0);
            let u = w.region_revoked(root_pa, k);
            assert(refs_of(u.regions, k) == refs_of(w.regions, k));
        }
    }
}

/// Closing a handle gives up its hold on the region behind it and no other.
pub proof fn law_a_closed_handle_lets_go(
    w: World,
    others: spec_fn(u64) -> int,
    pid: u16,
    root_pa: u64,
    fd: Fd,
    hart: int,
)
    requires
        counted(w, others),
    ensures
        counted(w.handle_closed(fd, pid, root_pa, hart).0, others),
{
    if handles_or_empty(w, pid).slots.contains_key(fd) {
        lemma_one_closed(w, others, pid, root_pa, fd, hart);
        let v = w.handle_closed(fd, pid, root_pa, hart).0;
        let u = one_closed(w, pid, root_pa, fd, hart);
        assert(v.handles =~= u.handles);
        assert(v.regions =~= u.regions);
        assert forall|k: u64| #[trigger]
            refs_of(v.regions, k) == handle_keys(v.handles, k).len() + waiting(v.net.reqs, 0, k)
                + others(k) by {
            assert(refs_of(u.regions, k) == handle_keys(u.handles, k).len() + waiting(
                u.net.reqs,
                0,
                k,
            ) + others(k));
        }
    }
}

proof fn lemma_many_closed(
    w: World,
    others: spec_fn(u64) -> int,
    pid: u16,
    root_pa: u64,
    fds: Seq<u32>,
    hart: int,
)
    requires
        counted(w, others),
        w.handles.contains_key(pid),
        fds.no_duplicates(),
        forall|i: int| 0 <= i < fds.len() ==> w.handles[pid].slots.contains_key(#[trigger] fds[i]),
    ensures
        ({
            let h = w.handles[pid];
            counted(
                World {
                    handles: w.handles.insert(
                        pid,
                        HandlesView { slots: h.slots.remove_keys(fds.to_set()), ..h },
                    ),
                    ..w.handles_dropped(root_pa, fds.map_values(|fd: u32| h.slots[fd].handle), hart)
                },
                others,
            )
        }),
    decreases fds.len(),
{
    let h = w.handles[pid];
    let hs = fds.map_values(|fd: u32| h.slots[fd].handle);
    let end = World {
        handles: w.handles.insert(
            pid,
            HandlesView { slots: h.slots.remove_keys(fds.to_set()), ..h },
        ),
        ..w.handles_dropped(root_pa, hs, hart)
    };
    if fds.len() == 0 {
        assert(h.slots.remove_keys(fds.to_set()) =~= h.slots);
        assert(end =~= w);
    } else {
        let fd = fds[0];
        let rest = fds.skip(1);
        lemma_one_closed(w, others, pid, root_pa, fd, hart);
        let v = one_closed(w, pid, root_pa, fd, hart);
        let g = v.handles[pid];
        assert forall|i: int| 0 <= i < rest.len() implies g.slots.contains_key(
            #[trigger] rest[i],
        ) by {
            assert(rest[i] == fds[i + 1]);
            assert(h.slots.contains_key(fds[i + 1]));
        }
        assert(rest.no_duplicates());
        lemma_many_closed(v, others, pid, root_pa, rest, hart);
        let ks = rest.map_values(|fd: u32| g.slots[fd].handle);
        assert(ks =~= hs.skip(1)) by {
            assert forall|i: int| 0 <= i < rest.len() implies ks[i] == hs.skip(1)[i] by {
                assert(rest[i] == fds[i + 1]);
            }
        }
        assert(hs[0] == h.slots[fd].handle);
        let d = w.handle_dropped(root_pa, hs[0], hart);
        lemma_handles_frame(d, root_pa, hs.skip(1), hart, v.handles);
        assert(v =~= World { handles: v.handles, ..d });
        assert(fds.to_set() =~= rest.to_set().insert(fd)) by {
            assert forall|x: u32| fds.to_set().contains(x) == rest.to_set().insert(fd).contains(
                x,
            ) by {
                if fds.contains(x) {
                    let i = choose|i: int| 0 <= i < fds.len() && fds[i] == x;
                    if i > 0 {
                        assert(rest[i - 1] == x);
                    }
                }
                if rest.contains(x) {
                    let i = choose|i: int| 0 <= i < rest.len() && rest[i] == x;
                    assert(fds[i + 1] == x);
                }
            }
        }
        assert(g.slots.remove_keys(rest.to_set()) =~= h.slots.remove_keys(fds.to_set()));
        let other_end = World {
            handles: v.handles.insert(
                pid,
                HandlesView { slots: g.slots.remove_keys(rest.to_set()), ..g },
            ),
            ..v.handles_dropped(root_pa, ks, hart)
        };
        assert(other_end.handles =~= end.handles);
        assert(other_end =~= end);
    }
}

/// A process that goes gives up every hold that its handles had. What the
/// network thread holds stays.
pub proof fn law_a_gone_process_holds_nothing(
    w: World,
    others: spec_fn(u64) -> int,
    pid: u16,
    root_pa: u64,
    hart: int,
)
    requires
        counted(w, others),
    ensures
        counted(w.handle_table_gone(pid, root_pa, hart), others),
        forall|pa: u64, fd: Fd|
            !(#[trigger] handle_keys(w.handle_table_gone(pid, root_pa, hart).handles, pa).contains(
                (pid, fd),
            )),
{
    let v = w.handle_table_gone(pid, root_pa, hart);
    if w.handles.contains_key(pid) {
        let h = w.handles[pid];
        let fds = sorted32(h.slots.dom());
        lemma_listed32(h.slots.dom());
        assert forall|i: int| 0 <= i < fds.len() implies h.slots.contains_key(
            #[trigger] fds[i],
        ) by {
            assert(fds.contains(fds[i]));
        }
        lemma_many_closed(w, others, pid, root_pa, fds, hart);
        let empty = World {
            handles: w.handles.insert(
                pid,
                HandlesView { slots: h.slots.remove_keys(fds.to_set()), ..h },
            ),
            ..w.handles_dropped(root_pa, handle_list(w, pid), hart)
        };
        assert(handle_list(w, pid) =~= fds.map_values(|fd: u32| h.slots[fd].handle));
        assert forall|k: u64| handle_keys(v.handles, k) == #[trigger] handle_keys(
            empty.handles,
            k,
        ) by {
            assert forall|fd: Fd| !(#[trigger] empty.handles[pid].slots.contains_key(fd)) by {
                if h.slots.contains_key(fd) {
                    assert(fds.contains(fd));
                    assert(fds.to_set().contains(fd));
                }
            }
            assert(handle_keys(v.handles, k) =~= handle_keys(empty.handles, k));
        }
        assert forall|k: u64| (#[trigger] handle_keys(v.handles, k)).finite() by {
            assert(handle_keys(empty.handles, k).finite());
        }
        assert forall|k: u64| #[trigger]
            refs_of(v.regions, k) == handle_keys(v.handles, k).len() + waiting(v.net.reqs, 0, k)
                + others(k) by {
            assert(refs_of(empty.regions, k) == handle_keys(empty.handles, k).len() + waiting(
                empty.net.reqs,
                0,
                k,
            ) + others(k));
            assert(handle_keys(v.handles, k) == handle_keys(empty.handles, k));
        }
    } else {
        assert(v =~= w);
    }
}

/// Whoever refers to a region finds it: the region behind a handle and the
/// channel of a waiting request are live.
pub proof fn law_holders_find_their_region(
    w: World,
    others: spec_fn(u64) -> int,
    pid: u16,
    fd: Fd,
    pa: u64,
)
    requires
        counted(w, others),
    ensures
        handle_keys(w.handles, pa).contains((pid, fd)) ==> w.regions.contains_key(pa),
        waiting(w.net.reqs, 0, pa) > 0 ==> w.regions.contains_key(pa),
        others(pa) > 0 ==> w.regions.contains_key(pa),
{
    lemma_waiting_positive(w.net.reqs, 0, pa);
    assert(refs_of(w.regions, pa) == handle_keys(w.handles, pa).len() + waiting(w.net.reqs, 0, pa)
        + others(pa));
    assert(others(pa) >= 0);
    assert(handle_keys(w.handles, pa).finite());
    if handle_keys(w.handles, pa).contains((pid, fd)) {
        assert(handle_keys(w.handles, pa).len() > 0);
    }
}

/// The sockets whose connection holds the channel at `pa`.
pub open spec fn conn_keys(conns: Map<u64, SocketReq>, pa: u64) -> Set<u64> {
    conns.dom().filter(|s: u64| conns[s].netchan.pa == pa)
}

/// Whether the network thread is making a socket for the channel at `pa`.
pub open spec fn opening(stage: NetStage, pa: u64) -> int {
    match stage {
        NetStage::Opening { req } => if req.netchan.pa == pa {
            1
        } else {
            0
        },
        _ => 0,
    }
}

/// The holders of every region are the waiting channels, those that the network
/// thread is about to open, its connections, and whoever `others` counts.
pub open spec fn net_counted(s: NetState, others: spec_fn(u64) -> int) -> bool {
    &&& s.conns.dom().finite()
    &&& forall|pa: u64| #[trigger]
        refs_of(s.holds.regions, pa) == waiting(s.net.reqs, 0, pa) + waiting_in(s.turn.opens, pa)
            + opening(s.turn.stage, pa) + conn_keys(s.conns, pa).len() + others(pa)
    &&& forall|pa: u64| #[trigger] others(pa) >= 0
}

/// Channels wait for their socket only while the thread opens sockets.
pub open spec fn turn_sound(t: TurnView) -> bool {
    t.stage is Opening || t.opens.len() == 0
}

/// Every region is held by its connections and `rest`.
pub open spec fn conns_counted(c: ConnState, rest: spec_fn(u64) -> int) -> bool {
    &&& c.conns.dom().finite()
    &&& forall|pa: u64| #[trigger]
        refs_of(c.holds.regions, pa) == conn_keys(c.conns, pa).len() + rest(pa)
    &&& forall|pa: u64| #[trigger] rest(pa) >= 0
}

proof fn lemma_conn_dropped(c: ConnState, rest: spec_fn(u64) -> int, socket: u64, hart: int)
    requires
        conns_counted(c, rest),
    ensures
        conns_counted(c.dropped(socket, hart), rest),
{
    let d = c.dropped(socket, hart);
    if c.conns.contains_key(socket) {
        let at = c.conns[socket].netchan.pa;
        assert forall|pa: u64| #[trigger]
            refs_of(d.holds.regions, pa) == conn_keys(d.conns, pa).len() + rest(pa) by {
            assert(refs_of(c.holds.regions, pa) == conn_keys(c.conns, pa).len() + rest(pa));
            assert(conn_keys(d.conns, pa) =~= conn_keys(c.conns, pa).remove(socket));
            assert(conn_keys(c.conns, pa).contains(socket) == (pa == at));
            assert(rest(pa) >= 0);
            if pa == at {
                assert(conn_keys(c.conns, pa).len() > 0);
            }
        }
    }
}

proof fn lemma_conns_dropped(c: ConnState, rest: spec_fn(u64) -> int, gone: Seq<u64>, hart: int)
    requires
        conns_counted(c, rest),
    ensures
        conns_counted(c.all_dropped(gone, hart), rest),
    decreases gone.len(),
{
    if gone.len() > 0 {
        lemma_conns_dropped(c, rest, gone.drop_last(), hart);
        lemma_conn_dropped(c.all_dropped(gone.drop_last(), hart), rest, gone.last(), hart);
    }
}

/// What else holds the region at `pa` besides the connections.
pub open spec fn besides_conns(s: NetState, others: spec_fn(u64) -> int) -> spec_fn(u64) -> int {
    |pa: u64|
        waiting(s.net.reqs, 0, pa) + waiting_in(s.turn.opens, pa) + opening(s.turn.stage, pa)
            + others(pa)
}

/// Closing connections, at a stage that opens nothing, keeps the count.
proof fn lemma_closed(s: NetState, others: spec_fn(u64) -> int, gone: Seq<u64>, hart: int)
    requires
        net_counted(s, others),
    ensures
        net_counted(s.closed(gone, hart), others),
{
    let rest = besides_conns(s, others);
    let c = ConnState { conns: s.conns, holds: s.holds };
    assert forall|pa: u64| #[trigger]
        refs_of(c.holds.regions, pa) == conn_keys(c.conns, pa).len() + rest(pa) by {
        assert(refs_of(s.holds.regions, pa) == waiting(s.net.reqs, 0, pa) + waiting_in(
            s.turn.opens,
            pa,
        ) + opening(s.turn.stage, pa) + conn_keys(s.conns, pa).len() + others(pa));
    }
    assert forall|pa: u64| #[trigger] rest(pa) >= 0 by {
        lemma_waiting_positive(s.net.reqs, 0, pa);
        lemma_waiting_in_positive(s.turn.opens, pa);
        assert(others(pa) >= 0);
    }
    lemma_conns_dropped(c, rest, gone, hart);
    let t = s.closed(gone, hart);
    assert forall|pa: u64| #[trigger]
        refs_of(t.holds.regions, pa) == waiting(t.net.reqs, 0, pa) + waiting_in(t.turn.opens, pa)
            + opening(t.turn.stage, pa) + conn_keys(t.conns, pa).len() + others(pa) by {
        let d = c.all_dropped(gone, hart);
        assert(refs_of(d.holds.regions, pa) == conn_keys(d.conns, pa).len() + rest(pa));
    }
}

/// Moving on without opening anything keeps the count.
proof fn lemma_moved(s: NetState, t: NetState, others: spec_fn(u64) -> int)
    requires
        net_counted(s, others),
        t.conns == s.conns,
        t.holds == s.holds,
        t.net.reqs == s.net.reqs,
        t.turn.opens == s.turn.opens,
        forall|pa: u64| opening(t.turn.stage, pa) == opening(s.turn.stage, pa),
    ensures
        net_counted(t, others),
{
    assert forall|pa: u64| #[trigger]
        refs_of(t.holds.regions, pa) == waiting(t.net.reqs, 0, pa) + waiting_in(t.turn.opens, pa)
            + opening(t.turn.stage, pa) + conn_keys(t.conns, pa).len() + others(pa) by {
        assert(refs_of(s.holds.regions, pa) == waiting(s.net.reqs, 0, pa) + waiting_in(
            s.turn.opens,
            pa,
        ) + opening(s.turn.stage, pa) + conn_keys(s.conns, pa).len() + others(pa));
    }
}

proof fn lemma_waiting_in_add(a: Seq<SocketReq>, b: Seq<SocketReq>, pa: u64)
    ensures
        waiting_in(a + b, pa) == waiting_in(a, pa) + waiting_in(b, pa),
    decreases a.len(),
{
    if a.len() == 0 {
        assert(a + b =~= b);
    } else {
        lemma_waiting_in_add(a.skip(1), b, pa);
        assert((a + b).skip(1) =~= a.skip(1) + b);
    }
}

/// The requests of a queue are those for a stream and the others.
proof fn lemma_queue_split(q: Seq<SocketReq>, pa: u64)
    ensures
        waiting_in(q, pa) == waiting_in(q.filter(|r: SocketReq| is_stream(r)), pa) + times_in(
            other_channels(q),
            pa,
        ),
    decreases q.len(),
{
    let f = |r: SocketReq| is_stream(r);
    if q.len() == 0 {
        assert(q.filter(f) =~= Seq::empty()) by {
            reveal(Seq::filter);
        }
    } else {
        lemma_queue_split(q.skip(1), pa);
        lemma_filter_cons(q, f);
        let rest = q.skip(1).filter(f);
        if is_stream(q[0]) {
            assert((seq![q[0]] + rest).skip(1) =~= rest);
        } else {
            lemma_times_add(seq![q[0].netchan.pa], other_channels(q.skip(1)), pa);
            assert(seq![q[0].netchan.pa].drop_last() =~= Seq::<u64>::empty());
            assert(times_in(seq![q[0].netchan.pa].drop_last(), pa) == 0);
        }
    }
}

proof fn lemma_requests_split(reqs: Seq<Seq<SocketReq>>, h: int, pa: u64)
    requires
        0 <= h,
    ensures
        waiting(reqs, h, pa) == waiting_in(stream_requests(reqs, h), pa) + times_in(
            turned_away(reqs, h),
            pa,
        ),
    decreases reqs.len() - h,
{
    if h < reqs.len() {
        lemma_requests_split(reqs, h + 1, pa);
        lemma_queue_split(reqs[h], pa);
        lemma_waiting_in_add(
            reqs[h].filter(|r: SocketReq| is_stream(r)),
            stream_requests(reqs, h + 1),
            pa,
        );
        lemma_times_add(other_channels(reqs[h]), turned_away(reqs, h + 1), pa);
    }
}

proof fn lemma_nothing_waits(reqs: Seq<Seq<SocketReq>>, h: int, pa: u64)
    requires
        0 <= h,
        forall|i: int| 0 <= i < reqs.len() ==> (#[trigger] reqs[i]).len() == 0,
    ensures
        waiting(reqs, h, pa) == 0,
    decreases reqs.len() - h,
{
    if h < reqs.len() {
        lemma_nothing_waits(reqs, h + 1, pa);
    }
}

/// Holders that let go are no longer counted.
proof fn lemma_released(h: Holds, pas: Seq<u64>, hart: int, rest: spec_fn(u64) -> int)
    requires
        forall|pa: u64| #[trigger] refs_of(h.regions, pa) == times_in(pas, pa) + rest(pa),
        forall|pa: u64| #[trigger] rest(pa) >= 0,
    ensures
        forall|pa: u64| #[trigger] refs_of(h.all_released(pas, hart).regions, pa) == rest(pa),
    decreases pas.len(),
{
    if pas.len() > 0 {
        let more = |pa: u64|
            rest(pa) + (if pas.last() == pa {
                1int
            } else {
                0
            });
        assert forall|pa: u64| #[trigger]
            refs_of(h.regions, pa) == times_in(pas.drop_last(), pa) + more(pa) by {
            assert(refs_of(h.regions, pa) == times_in(pas, pa) + rest(pa));
        }
        assert forall|pa: u64| #[trigger] more(pa) >= 0 by {
            assert(rest(pa) >= 0);
        }
        lemma_released(h, pas.drop_last(), hart, more);
        let b = h.all_released(pas.drop_last(), hart);
        assert forall|pa: u64| #[trigger]
            refs_of(h.all_released(pas, hart).regions, pa) == rest(pa) by {
            assert(refs_of(b.regions, pa) == more(pa));
            assert(rest(pa) >= 0);
        }
    }
}

/// Taking the requests keeps the count: those for a stream are about to be
/// opened, and the others have let go.
proof fn lemma_taken(s: NetState, others: spec_fn(u64) -> int, hart: int)
    requires
        net_counted(s, others),
        s.turn.opens.len() == 0,
        !(s.turn.stage is Opening),
    ensures
        net_counted(s.requests_taken(hart), others),
{
    let t = s.requests_taken(hart);
    let streams = stream_requests(s.net.reqs, 0);
    let away = turned_away(s.net.reqs, 0);
    let rest = |pa: u64| waiting_in(streams, pa) + conn_keys(s.conns, pa).len() + others(pa);
    assert forall|pa: u64| #[trigger]
        refs_of(s.holds.regions, pa) == times_in(away, pa) + rest(pa) by {
        lemma_requests_split(s.net.reqs, 0, pa);
        assert(refs_of(s.holds.regions, pa) == waiting(s.net.reqs, 0, pa) + waiting_in(
            s.turn.opens,
            pa,
        ) + opening(s.turn.stage, pa) + conn_keys(s.conns, pa).len() + others(pa));
    }
    assert forall|pa: u64| #[trigger] rest(pa) >= 0 by {
        lemma_waiting_in_positive(streams, pa);
        assert(others(pa) >= 0);
    }
    lemma_released(s.holds, away, hart, rest);
    assert forall|pa: u64| #[trigger]
        refs_of(t.holds.regions, pa) == waiting(t.net.reqs, 0, pa) + waiting_in(t.turn.opens, pa)
            + opening(t.turn.stage, pa) + conn_keys(t.conns, pa).len() + others(pa) by {
        lemma_nothing_waits(t.net.reqs, 0, pa);
        assert(refs_of(s.holds.all_released(away, hart).regions, pa) == rest(pa));
    }
}

/// Turning to the next channel keeps the count: it goes from the list into the
/// thread's hands.
proof fn lemma_next_open(s: NetState, others: spec_fn(u64) -> int)
    requires
        net_counted(s, others),
        !(s.turn.stage is Opening),
    ensures
        net_counted(s.next_open().0, others),
        turn_sound(s.next_open().0.turn),
{
    let t = s.next_open().0;
    assert forall|pa: u64| #[trigger]
        refs_of(t.holds.regions, pa) == waiting(t.net.reqs, 0, pa) + waiting_in(t.turn.opens, pa)
            + opening(t.turn.stage, pa) + conn_keys(t.conns, pa).len() + others(pa) by {
        assert(refs_of(s.holds.regions, pa) == waiting(s.net.reqs, 0, pa) + waiting_in(
            s.turn.opens,
            pa,
        ) + opening(s.turn.stage, pa) + conn_keys(s.conns, pa).len() + others(pa));
    }
}

/// A socket that was made passes the hold on its channel to its connection.
proof fn lemma_opened(s: NetState, others: spec_fn(u64) -> int, socket: u64, wake_user: bool)
    requires
        net_counted(s, others),
        s.turn.stage is Opening,
        !s.conns.contains_key(socket),
    ensures
        ({
            let req = s.turn.stage->req;
            net_counted(
                s.told(req.pid, wake_user).in_service(socket, req).at_stage(NetStage::Parked),
                others,
            )
        }),
{
    let req = s.turn.stage->req;
    let t = s.told(req.pid, wake_user).in_service(socket, req).at_stage(NetStage::Parked);
    assert forall|pa: u64| #[trigger]
        refs_of(t.holds.regions, pa) == waiting(t.net.reqs, 0, pa) + waiting_in(t.turn.opens, pa)
            + opening(t.turn.stage, pa) + conn_keys(t.conns, pa).len() + others(pa) by {
        assert(refs_of(s.holds.regions, pa) == waiting(s.net.reqs, 0, pa) + waiting_in(
            s.turn.opens,
            pa,
        ) + opening(s.turn.stage, pa) + conn_keys(s.conns, pa).len() + others(pa));
        if req.netchan.pa == pa {
            assert(conn_keys(t.conns, pa) =~= conn_keys(s.conns, pa).insert(socket));
        } else {
            assert(conn_keys(t.conns, pa) =~= conn_keys(s.conns, pa));
        }
    }
}

/// The network thread keeps the count at every step: a request's hold passes to
/// its connection, and it ends when the request is turned away or the
/// connection is dropped.
pub proof fn law_the_network_thread_keeps_the_count(
    s: NetState,
    others: spec_fn(u64) -> int,
    e: NetEvent,
    hart: int,
)
    requires
        net_counted(s, others),
        turn_sound(s.turn),
        awaits(s.turn, e),
        e matches NetEvent::Opened { socket, .. } ==> !s.conns.contains_key(socket),
    ensures
        net_counted(s.stepped(e, hart).0, others),
        turn_sound(s.stepped(e, hart).0.turn),
{
    let t = s.stepped(e, hart).0;
    match e {
        NetEvent::Polled { progress, now } => {
            let w = if progress {
                s.polled(now)
            } else {
                s
            };
            lemma_moved(s, w, others);
            if progress && w.turn.left > 0 {
            } else if s.turn.stage == NetStage::FirstPolls {
                lemma_closed(w, others, w.net.deletions, hart);
                let v = w.closed(w.net.deletions, hart);
                let revoked = revoked_sockets(v.conns, v.holds.regions);
                lemma_closed(v, others, revoked, hart);
                lemma_moved(v.closed(revoked, hart), t, others);
            } else {
                lemma_moved(w, t, others);
            }
        },
        NetEvent::Closed => {
            if s.turn.stage == NetStage::Closing {
                let w = NetState {
                    turn: TurnView { todo: crate::tables::sorted64(s.conns.dom()), ..s.turn },
                    ..s
                };
                lemma_moved(s, w, others);
                lemma_next_update(w, others, hart);
            } else {
                lemma_moved(s, t, others);
            }
        },
        NetEvent::Updated(u) => {
            let w = NetState {
                turn: TurnView {
                    second: s.turn.second || crate::net::wants_poll(u),
                    ..s.turn
                },
                ..s.told(s.turn.stage->Updating_pid, u.wake_user)
            };
            lemma_moved(s, w, others);
            lemma_next_update(w, others, hart);
        },
        NetEvent::Deadline(poll_at) => {
            let w = NetState {
                turn: TurnView { until: s.wakes_at(poll_at), ..s.turn },
                ..s
            };
            lemma_moved(s, w, others);
            lemma_taken(w, others, hart);
            lemma_next_open(w.requests_taken(hart), others);
        },
        NetEvent::Opened { socket, wake_user } => {
            let req = s.turn.stage->req;
            lemma_opened(s, others, socket, wake_user);
            let w = s.told(req.pid, wake_user).in_service(socket, req);
            lemma_next_open(w.at_stage(NetStage::Parked), others);
            assert(w.at_stage(NetStage::Parked).next_open().0 =~= w.next_open().0);
        },
    }
}

proof fn lemma_next_update(w: NetState, others: spec_fn(u64) -> int, hart: int)
    requires
        net_counted(w, others),
        !(w.turn.stage is Opening),
        w.turn.opens.len() == 0,
    ensures
        net_counted(w.next_update(hart).0, others),
        turn_sound(w.next_update(hart).0.turn),
{
    let t = w.next_update(hart).0;
    let regions = w.holds.regions;
    if skip_idle(w.turn.todo, w.conns, regions).len() == 0 {
        let revoked = revoked_sockets(w.conns, regions);
        lemma_closed(w, others, revoked, hart);
        lemma_moved(w.closed(revoked, hart), t, others);
    } else {
        lemma_moved(w, t, others);
    }
}

} // verus!
