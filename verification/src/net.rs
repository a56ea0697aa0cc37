//! Sockets and the queues between the manager and the network thread.
//!
//! The manager hands over channels that want a socket and sockets whose
//! process is gone; the network thread tells which socket a process got.

use crate::hart::TICKS_PER_MICRO;
use crate::holds::let_go;
#[allow(unused_imports)]
use crate::holds::{holds_of, Holds};
use crate::orbit::Orbit;
use crate::process::Process;
use crate::rings::{wake_queue_push, WakeEvent, WakeQueue};
use crate::shared_user_ptr::{SharedRegions, SharedUserPtr};
#[allow(unused_imports)]
use crate::shared_user_ptr::Region;
#[allow(unused_imports)]
use crate::tables::{keys64, lists64, sorted64};
use crate::world::Machine;
#[allow(unused_imports)]
use crate::world::{keeps_order, lemma_same_places, regions_ok};
use heapless::spsc::Queue;
use std::collections::BTreeMap;
use vstd::prelude::*;

verus! {

broadcast use {vstd::laws_cmp::group_laws_cmp, vstd::std_specs::btree::group_btree_axioms};

/// A channel that wants a socket. `bind` is the binding it was created with.
#[derive(Clone, Copy, Debug, PartialEq, Eq, Structural)]
pub struct SocketReq {
    pub netchan: SharedUserPtr,
    pub nc_type: u32,
    pub pid: u16,
    pub bind: u64,
}

/// The socket that a process got.
#[derive(Clone, Copy, Debug, PartialEq, Eq, Structural)]
pub struct Association {
    pub pid: u16,
    pub socket: u64,
}

/// Channels that want a socket, from one hart.
#[verifier::external_body]
pub struct ReqRing {
    q: Queue<SocketReq, 8>,
}

/// What the ring holds, oldest first.
pub uninterp spec fn req_items(q: ReqRing) -> Seq<SocketReq>;

/// `heapless::spsc::Queue::new`: an empty ring.
#[verifier::external_body]
fn req_ring_new() -> (q: ReqRing)
    ensures
        req_items(q) == Seq::<SocketReq>::empty(),
{
    ReqRing { q: Queue::new() }
}

/// `heapless::spsc::Queue::enqueue`: appends unless the ring holds as many
/// items as it can, one less than its size, and then hands the item back.
#[verifier::external_body]
fn req_ring_enqueue(q: &mut ReqRing, x: SocketReq) -> (r: Result<(), SocketReq>)
    ensures
        match r {
            Ok(()) => {
                &&& req_items(*old(q)).len() < 7
                &&& req_items(*final(q)) == req_items(*old(q)).push(x)
            },
            Err(y) => {
                &&& req_items(*old(q)).len() >= 7
                &&& y == x
                &&& req_items(*final(q)) == req_items(*old(q))
            },
        },
{
    q.q.enqueue(x)
}

/// `heapless::spsc::Queue::dequeue`: takes the oldest item.
#[verifier::external_body]
fn req_ring_dequeue(q: &mut ReqRing) -> (r: Option<SocketReq>)
    ensures
        match r {
            Some(x) => {
                &&& req_items(*old(q)).len() > 0
                &&& x == req_items(*old(q))[0]
                &&& req_items(*final(q)) == req_items(*old(q)).skip(1)
            },
            None => {
                &&& req_items(*old(q)).len() == 0
                &&& req_items(*final(q)) == req_items(*old(q))
            },
        },
{
    q.q.dequeue()
}

/// Sockets and the processes they belong to.
#[verifier::external_body]
pub struct AssocRing {
    q: Queue<Association, 8>,
}

/// What the ring holds, oldest first.
pub uninterp spec fn assoc_items(q: AssocRing) -> Seq<Association>;

/// `heapless::spsc::Queue::new`: an empty ring.
#[verifier::external_body]
fn assoc_ring_new() -> (q: AssocRing)
    ensures
        assoc_items(q) == Seq::<Association>::empty(),
{
    AssocRing { q: Queue::new() }
}

/// `heapless::spsc::Queue::enqueue`: appends unless the ring holds as many
/// items as it can, one less than its size, and then hands the item back.
#[verifier::external_body]
fn assoc_ring_enqueue(q: &mut AssocRing, x: Association) -> (r: Result<(), Association>)
    ensures
        match r {
            Ok(()) => {
                &&& assoc_items(*old(q)).len() < 7
                &&& assoc_items(*final(q)) == assoc_items(*old(q)).push(x)
            },
            Err(y) => {
                &&& assoc_items(*old(q)).len() >= 7
                &&& y == x
                &&& assoc_items(*final(q)) == assoc_items(*old(q))
            },
        },
{
    q.q.enqueue(x)
}

/// `heapless::spsc::Queue::dequeue`: takes the oldest item.
#[verifier::external_body]
fn assoc_ring_dequeue(q: &mut AssocRing) -> (r: Option<Association>)
    ensures
        match r {
            Some(x) => {
                &&& assoc_items(*old(q)).len() > 0
                &&& x == assoc_items(*old(q))[0]
                &&& assoc_items(*final(q)) == assoc_items(*old(q)).skip(1)
            },
            None => {
                &&& assoc_items(*old(q)).len() == 0
                &&& assoc_items(*final(q)) == assoc_items(*old(q))
            },
        },
{
    q.q.dequeue()
}

/// Sockets to delete.
#[verifier::external_body]
pub struct DeletionRing {
    q: Queue<u64, 8>,
}

/// What the ring holds, oldest first.
pub uninterp spec fn deletion_items(q: DeletionRing) -> Seq<u64>;

/// `heapless::spsc::Queue::new`: an empty ring.
#[verifier::external_body]
fn deletion_ring_new() -> (q: DeletionRing)
    ensures
        deletion_items(q) == Seq::<u64>::empty(),
{
    DeletionRing { q: Queue::new() }
}

/// `heapless::spsc::Queue::enqueue`: appends unless the ring holds as many
/// items as it can, one less than its size, and then hands the item back.
#[verifier::external_body]
fn deletion_ring_enqueue(q: &mut DeletionRing, x: u64) -> (r: Result<(), u64>)
    ensures
        match r {
            Ok(()) => {
                &&& deletion_items(*old(q)).len() < 7
                &&& deletion_items(*final(q)) == deletion_items(*old(q)).push(x)
            },
            Err(y) => {
                &&& deletion_items(*old(q)).len() >= 7
                &&& y == x
                &&& deletion_items(*final(q)) == deletion_items(*old(q))
            },
        },
{
    q.q.enqueue(x)
}

/// `heapless::spsc::Queue::dequeue`: takes the oldest item.
#[verifier::external_body]
fn deletion_ring_dequeue(q: &mut DeletionRing) -> (r: Option<u64>)
    ensures
        match r {
            Some(x) => {
                &&& deletion_items(*old(q)).len() > 0
                &&& x == deletion_items(*old(q))[0]
                &&& deletion_items(*final(q)) == deletion_items(*old(q)).skip(1)
            },
            None => {
                &&& deletion_items(*old(q)).len() == 0
                &&& deletion_items(*final(q)) == deletion_items(*old(q))
            },
        },
{
    q.q.dequeue()
}

/// Items each ring has room for.
pub const NET_RING_ROOM: usize = 7;

/// The queues of the network thread.
pub struct NetPackage {
    reqs: Vec<ReqRing>,
    associations: AssocRing,
    deletions: DeletionRing,
}

/// What the queues hold. `reqs` has one entry per hart, or none before the
/// network device is set up.
#[verifier::ext_equal]
pub struct NetView {
    pub reqs: Seq<Seq<SocketReq>>,
    pub associations: Seq<Association>,
    pub deletions: Seq<u64>,
}

impl View for NetPackage {
    type V = NetView;

    closed spec fn view(&self) -> NetView {
        NetView {
            reqs: self.reqs@.map_values(|q: ReqRing| req_items(q)),
            associations: assoc_items(self.associations),
            deletions: deletion_items(self.deletions),
        }
    }
}

impl NetPackage {
    /// Empty queues, with no network device.
    pub fn new() -> (r: Self)
        ensures
            r@ == (NetView {
                reqs: Seq::empty(),
                associations: Seq::empty(),
                deletions: Seq::empty(),
            }),
    {
        let r = NetPackage {
            reqs: Vec::new(),
            associations: assoc_ring_new(),
            deletions: deletion_ring_new(),
        };
        proof {
            assert(r@.reqs =~= Seq::<Seq<SocketReq>>::empty());
        }
        r
    }

    /// Makes one request ring per hart, once the device is there.
    pub fn set_harts(&mut self, harts: usize)
        ensures
            final(self)@ == (NetView {
                reqs: Seq::new(harts as nat, |i: int| Seq::<SocketReq>::empty()),
                ..old(self)@
            }),
    {
        let mut reqs: Vec<ReqRing> = Vec::new();
        let mut i: usize = 0;
        while i < harts
            invariant
                i <= harts,
                reqs@.len() == i,
                forall|j: int|
                    0 <= j < i ==> req_items(#[trigger] reqs@[j]) == Seq::<SocketReq>::empty(),
            decreases harts - i,
        {
            reqs.push(req_ring_new());
            i = i + 1;
        }
        self.reqs = reqs;
        proof {
            assert(self@.reqs =~= Seq::new(harts as nat, |i: int| Seq::<SocketReq>::empty()));
        }
    }

    /// Hands a channel over on the ring of `hart`. Tells whether it was
    /// refused because that ring is full; a hart without a ring drops it.
    pub fn request(&mut self, hart: u64, req: SocketReq) -> (r: Result<(), SocketReq>)
        ensures
            hart >= old(self)@.reqs.len() ==> r is Ok && final(self)@ == old(self)@,
            hart < old(self)@.reqs.len() && old(self)@.reqs[hart as int].len() < 7 ==> r is Ok
                && final(self)@ == (NetView {
                reqs: old(self)@.reqs.update(
                    hart as int,
                    old(self)@.reqs[hart as int].push(req),
                ),
                ..old(self)@
            }),
            hart < old(self)@.reqs.len() && old(self)@.reqs[hart as int].len() >= 7 ==> r == Err::<
                (),
                SocketReq,
            >(req) && final(self)@ == old(self)@,
    {
        if hart >= self.reqs.len() as u64 {
            return Ok(());
        }
        let h: usize = hart as usize;
        let ghost before = self@;
        let r = req_ring_enqueue(&mut self.reqs[h], req);
        proof {
            if r is Ok {
                assert(self@.reqs =~= before.reqs.update(
                    hart as int,
                    before.reqs[hart as int].push(req),
                ));
            } else {
                assert(self@.reqs =~= before.reqs);
            }
        }
        r
    }

    /// Takes the oldest request from the ring of `hart`.
    pub fn take_request(&mut self, hart: usize) -> (r: Option<SocketReq>)
        requires
            hart < old(self)@.reqs.len(),
        ensures
            match r {
                Some(x) => {
                    let q = old(self)@.reqs[hart as int];
                    &&& q.len() > 0
                    &&& x == q[0]
                    &&& final(self)@ == (NetView {
                        reqs: old(self)@.reqs.update(hart as int, q.skip(1)),
                        ..old(self)@
                    })
                },
                None => old(self)@.reqs[hart as int].len() == 0 && final(self)@ == old(self)@,
            },
    {
        let ghost before = self@;
        let r = req_ring_dequeue(&mut self.reqs[hart]);
        proof {
            if r is Some {
                assert(self@.reqs =~= before.reqs.update(
                    hart as int,
                    before.reqs[hart as int].skip(1),
                ));
            } else {
                assert(self@.reqs =~= before.reqs);
            }
        }
        r
    }

    /// Number of request rings.
    pub fn harts(&self) -> (r: usize)
        ensures
            r == self@.reqs.len(),
    {
        self.reqs.len()
    }

    /// Tells the manager which socket a process got.
    pub fn associate(&mut self, a: Association) -> (r: Result<(), Association>)
        ensures
            old(self)@.associations.len() < 7 ==> r is Ok && final(self)@ == (NetView {
                associations: old(self)@.associations.push(a),
                ..old(self)@
            }),
            old(self)@.associations.len() >= 7 ==> r == Err::<(), Association>(a) && final(self)@
                == old(self)@,
    {
        assoc_ring_enqueue(&mut self.associations, a)
    }

    /// Takes the oldest association.
    pub fn take_association(&mut self) -> (r: Option<Association>)
        ensures
            match r {
                Some(a) => {
                    &&& old(self)@.associations.len() > 0
                    &&& a == old(self)@.associations[0]
                    &&& final(self)@ == (NetView {
                        associations: old(self)@.associations.skip(1),
                        ..old(self)@
                    })
                },
                None => old(self)@.associations.len() == 0 && final(self)@ == old(self)@,
            },
    {
        assoc_ring_dequeue(&mut self.associations)
    }

    /// Hands a socket over for deletion.
    pub fn delete_socket(&mut self, socket: u64) -> (r: Result<(), u64>)
        ensures
            old(self)@.deletions.len() < 7 ==> r is Ok && final(self)@ == (NetView {
                deletions: old(self)@.deletions.push(socket),
                ..old(self)@
            }),
            old(self)@.deletions.len() >= 7 ==> r == Err::<(), u64>(socket) && final(self)@
                == old(self)@,
    {
        deletion_ring_enqueue(&mut self.deletions, socket)
    }

    /// Takes the oldest socket that is to be deleted.
    pub fn take_deletion(&mut self) -> (r: Option<u64>)
        ensures
            match r {
                Some(s) => {
                    &&& old(self)@.deletions.len() > 0
                    &&& s == old(self)@.deletions[0]
                    &&& final(self)@ == (NetView {
                        deletions: old(self)@.deletions.skip(1),
                        ..old(self)@
                    })
                },
                None => old(self)@.deletions.len() == 0 && final(self)@ == old(self)@,
            },
    {
        deletion_ring_dequeue(&mut self.deletions)
    }
}

/// The sockets of every process, and the deletion queue.
#[verifier::ext_equal]
pub struct SocketState {
    pub sockets: Map<u16, Set<u64>>,
    pub deletions: Seq<u64>,
}

/// The state after one association: the process gets its socket; if it is
/// gone, the socket is queued for deletion as far as there is room.
pub open spec fn associated(s: SocketState, a: Association) -> SocketState {
    if s.sockets.contains_key(a.pid) {
        SocketState { sockets: s.sockets.insert(a.pid, s.sockets[a.pid].insert(a.socket)), ..s }
    } else if s.deletions.len() < 7 {
        SocketState { deletions: s.deletions.push(a.socket), ..s }
    } else {
        s
    }
}

/// The state after a run of associations, oldest first.
pub open spec fn associated_all(s: SocketState, q: Seq<Association>) -> SocketState
    decreases q.len(),
{
    if q.len() == 0 {
        s
    } else {
        associated_all(associated(s, q[0]), q.skip(1))
    }
}

/// The sockets of each process.
pub open spec fn sockets_of(processes: Map<u16, Process>) -> Map<u16, Set<u64>> {
    processes.map_values(|p: Process| p.sockets@)
}

/// Two process tables that differ at most in who has which socket.
pub open spec fn same_but_sockets(a: Map<u16, Process>, b: Map<u16, Process>) -> bool {
    &&& a.dom() == b.dom()
    &&& forall|pid: u16| #[trigger]
        a.contains_key(pid) ==> b[pid] == (Process { sockets: b[pid].sockets, ..a[pid] })
}

impl Orbit {
    /// Takes every association that the network thread reported.
    pub fn check_net(&mut self, net: &mut NetPackage)
        ensures
            ({
                let s = associated_all(
                    SocketState {
                        sockets: sockets_of(old(self).processes@),
                        deletions: old(net)@.deletions,
                    },
                    old(net)@.associations,
                );
                &&& sockets_of(final(self).processes@) == s.sockets
                &&& final(net)@ == (NetView {
                    associations: Seq::empty(),
                    deletions: s.deletions,
                    ..old(net)@
                })
            }),
            same_but_sockets(old(self).processes@, final(self).processes@),
            keeps_order(*old(self), *final(self)),
            *final(self) == (Orbit { processes: final(self).processes, ..*old(self) }),
    {
        let ghost goal = associated_all(
            SocketState { sockets: sockets_of(self.processes@), deletions: net@.deletions },
            net@.associations,
        );
        loop
            invariant
                goal == associated_all(
                    SocketState {
                        sockets: sockets_of(old(self).processes@),
                        deletions: old(net)@.deletions,
                    },
                    old(net)@.associations,
                ),
                goal == associated_all(
                    SocketState { sockets: sockets_of(self.processes@), deletions: net@.deletions },
                    net@.associations,
                ),
                net@.reqs == old(net)@.reqs,
                same_but_sockets(old(self).processes@, self.processes@),
                *self == (Orbit { processes: self.processes, ..*old(self) }),
            ensures
                net@.associations.len() == 0,
            decreases net@.associations.len(),
        {
            let ghost s = SocketState {
                sockets: sockets_of(self.processes@),
                deletions: net@.deletions,
            };
            let a = match net.take_association() {
                Some(a) => a,
                None => {
                    break ;
                },
            };
            if self.processes.contains_key(&a.pid) {
                let ghost before = self.processes@;
                let mut p = self.processes.remove(&a.pid).unwrap();
                let _ = p.sockets.insert(a.socket);
                let ghost n = p;
                let _ = self.processes.insert(a.pid, p);
                proof {
                    assert(self.processes@ =~= before.insert(a.pid, n));
                    assert(sockets_of(self.processes@) =~= associated(s, a).sockets);
                    assert(self.processes@.dom() =~= before.dom());
                }
            } else {
                let _ = net.delete_socket(a.socket);
            }
        }
        proof {
            assert(net@.associations =~= Seq::<Association>::empty());
            lemma_same_places(*old(self), *self);
        }
    }
}

/// The connections that the network thread drives, by socket.
pub struct NetConns {
    pub conns: BTreeMap<u64, SocketReq>,
}

/// The connections left after a run of sockets was deleted.
pub open spec fn without(m: Map<u64, SocketReq>, gone: Seq<u64>) -> Map<u64, SocketReq> {
    m.remove_keys(gone.to_set())
}

/// Whether the connection's channel was taken away from its process.
pub open spec fn conn_revoked(regions: Map<u64, Region>, req: SocketReq) -> bool {
    regions.contains_key(req.netchan.pa) && regions[req.netchan.pa].revoked
}

/// The sockets whose channel was revoked, in ascending order.
pub open spec fn revoked_sockets(conns: Map<u64, SocketReq>, regions: Map<u64, Region>) -> Seq<
    u64,
> {
    sorted64(conns.dom()).filter(|s: u64| conn_revoked(regions, conns[s]))
}

/// The connections, and the regions of which each holds one.
#[verifier::ext_equal]
pub struct ConnState {
    pub conns: Map<u64, SocketReq>,
    pub holds: Holds,
}

impl ConnState {
    /// The connection of a socket goes and lets go of its channel.
    pub open spec fn dropped(self, socket: u64, hart: int) -> ConnState {
        if self.conns.contains_key(socket) {
            ConnState {
                conns: self.conns.remove(socket),
                holds: self.holds.released(self.conns[socket].netchan.pa, hart),
            }
        } else {
            self
        }
    }

    /// The connections of several sockets go, one after another.
    pub open spec fn all_dropped(self, gone: Seq<u64>, hart: int) -> ConnState
        decreases gone.len(),
    {
        if gone.len() == 0 {
            self
        } else {
            self.all_dropped(gone.drop_last(), hart).dropped(gone.last(), hart)
        }
    }
}

pub open spec fn conn_state(c: NetConns, regions: SharedRegions, m: Machine) -> ConnState {
    ConnState { conns: c.conns@, holds: holds_of(regions, m.frees, m.effects@) }
}

/// Dropping connections leaves exactly the others.
pub proof fn law_only_dropped_connections_go(c: ConnState, gone: Seq<u64>, hart: int)
    ensures
        c.all_dropped(gone, hart).conns == without(c.conns, gone),
    decreases gone.len(),
{
    if gone.len() == 0 {
        assert(without(c.conns, gone) =~= c.conns);
    } else {
        law_only_dropped_connections_go(c, gone.drop_last(), hart);
        let before = gone.drop_last();
        assert(gone.to_set() =~= before.to_set().insert(gone.last())) by {
            assert(before.push(gone.last()) =~= gone);
            broadcast use vstd::seq_lib::group_seq_properties;

        }
        assert(c.all_dropped(gone, hart).conns =~= without(c.conns, gone));
    }
}

/// What became of one connection's socket in an update round.
#[derive(Clone, Copy, Debug, PartialEq, Eq, Structural)]
pub struct SocketUpdate {
    pub recv_before: u64,
    pub recv_after: u64,
    pub send_after: u64,
    pub wake_user: bool,
}

/// Whether a socket update leaves segments that should go out at once: data in
/// either queue, a moved read pointer, or news for the user.
pub open spec fn wants_poll(u: SocketUpdate) -> bool {
    u.recv_after > 0 || u.send_after > 0 || u.recv_after != u.recv_before || u.wake_user
}

impl NetConns {
    pub fn new() -> (r: Self)
        ensures
            r.conns@ == Map::<u64, SocketReq>::empty(),
    {
        NetConns { conns: BTreeMap::new() }
    }

    /// Drops the connection of a socket, if there is one.
    fn drop_conn(
        &mut self,
        m: &mut Machine,
        regions: &mut SharedRegions,
        socket: u64,
        hart: usize,
    )
        requires
            regions_ok(old(regions)@),
            hart < old(m).frees@.len(),
        ensures
            conn_state(*final(self), *final(regions), *final(m)) == conn_state(
                *old(self),
                *old(regions),
                *old(m),
            ).dropped(socket, hart as int),
            regions_ok(final(regions)@),
            final(m).frees@.len() == old(m).frees@.len(),
            *final(m) == (Machine {
                frees: final(m).frees,
                effects: final(m).effects,
                ..*old(m)
            }),
    {
        match self.conns.remove(&socket) {
            Some(req) => {
                let_go(regions, &mut m.frees, &mut m.effects, req.netchan.pa, hart);
            },
            None => {
                proof {
                    assert(self.conns@ =~= old(self).conns@);
                }
            },
        }
    }

    /// Drops the connections of every socket that is to be deleted and returns
    /// those sockets, oldest first.
    pub fn drain_deletions(
        &mut self,
        m: &mut Machine,
        regions: &mut SharedRegions,
        hart: usize,
    ) -> (r: Vec<u64>)
        requires
            regions_ok(old(regions)@),
            hart < old(m).frees@.len(),
        ensures
            r@ == old(m).net@.deletions,
            conn_state(*final(self), *final(regions), *final(m)) == conn_state(
                *old(self),
                *old(regions),
                *old(m),
            ).all_dropped(r@, hart as int),
            final(m).net@ == (NetView { deletions: Seq::empty(), ..old(m).net@ }),
            regions_ok(final(regions)@),
            final(m).frees@.len() == old(m).frees@.len(),
            *final(m) == (Machine {
                net: final(m).net,
                frees: final(m).frees,
                effects: final(m).effects,
                ..*old(m)
            }),
    {
        let mut out: Vec<u64> = Vec::new();
        let ghost start = conn_state(*self, *regions, *m);
        loop
            invariant
                out@ + m.net@.deletions == old(m).net@.deletions,
                conn_state(*self, *regions, *m) == start.all_dropped(out@, hart as int),
                m.net@.reqs == old(m).net@.reqs,
                m.net@.associations == old(m).net@.associations,
                regions_ok(regions@),
                m.frees@.len() == old(m).frees@.len(),
                hart < m.frees@.len(),
                *m == (Machine { net: m.net, frees: m.frees, effects: m.effects, ..*old(m) }),
            ensures
                m.net@.deletions.len() == 0,
                out@ == old(m).net@.deletions,
            decreases m.net@.deletions.len(),
        {
            let ghost left = m.net@.deletions;
            let ghost done = out@;
            match m.net.take_deletion() {
                Some(s) => {
                    self.drop_conn(m, regions, s, hart);
                    out.push(s);
                    proof {
                        assert(out@ + m.net@.deletions =~= done + left);
                        assert(out@.drop_last() =~= done);
                    }
                },
                None => {
                    proof {
                        assert(out@ + left =~= out@);
                    }
                    break ;
                },
            }
        }
        proof {
            assert(m.net@.deletions =~= Seq::<u64>::empty());
        }
        out
    }

    /// The sockets whose channel was revoked, in ascending order.
    fn list_revoked(&self, regions: &SharedRegions) -> (r: Vec<u64>)
        ensures
            r@ == revoked_sockets(self.conns@, regions@),
    {
        let keys = keys64(&self.conns);
        let ghost gone = |s: u64| conn_revoked(regions@, self.conns@[s]);
        let mut out: Vec<u64> = Vec::new();
        let mut i: usize = 0;
        proof {
            assert(keys@.take(0).filter(gone) =~= Seq::<u64>::empty()) by {
                reveal(Seq::filter);
            }
        }
        while i < keys.len()
            invariant
                i <= keys@.len(),
                lists64(keys@, self.conns@.dom()),
                gone == (|s: u64| conn_revoked(regions@, self.conns@[s])),
                out@ == keys@.take(i as int).filter(gone),
            decreases keys@.len() - i,
        {
            let s: u64 = keys[i];
            proof {
                assert(keys@.contains(s));
                let t = keys@.take(i + 1);
                assert(t.drop_last() =~= keys@.take(i as int));
                assert(t.last() == s);
                reveal(Seq::filter);
            }
            let pa: u64 = self.conns.get(&s).unwrap().netchan.pa;
            let revoked: bool = match regions.regions.get(&pa) {
                Some(g) => g.revoked,
                None => false,
            };
            if revoked {
                out.push(s);
            }
            i = i + 1;
        }
        proof {
            assert(keys@.take(i as int) =~= keys@);
        }
        out
    }

    /// Drops every connection whose channel was revoked and returns their
    /// sockets in ascending order.
    pub fn prune_revoked(
        &mut self,
        m: &mut Machine,
        regions: &mut SharedRegions,
        hart: usize,
    ) -> (r: Vec<u64>)
        requires
            regions_ok(old(regions)@),
            hart < old(m).frees@.len(),
        ensures
            r@ == revoked_sockets(old(self).conns@, old(regions)@),
            conn_state(*final(self), *final(regions), *final(m)) == conn_state(
                *old(self),
                *old(regions),
                *old(m),
            ).all_dropped(r@, hart as int),
            regions_ok(final(regions)@),
            final(m).frees@.len() == old(m).frees@.len(),
            *final(m) == (Machine {
                frees: final(m).frees,
                effects: final(m).effects,
                ..*old(m)
            }),
    {
        let out = self.list_revoked(regions);
        let ghost start = conn_state(*self, *regions, *m);
        let mut i: usize = 0;
        proof {
            assert(out@.take(0) =~= Seq::<u64>::empty());
        }
        while i < out.len()
            invariant
                i <= out@.len(),
                conn_state(*self, *regions, *m) == start.all_dropped(
                    out@.take(i as int),
                    hart as int,
                ),
                regions_ok(regions@),
                m.frees@.len() == old(m).frees@.len(),
                hart < m.frees@.len(),
                *m == (Machine { frees: m.frees, effects: m.effects, ..*old(m) }),
            decreases out@.len() - i,
        {
            self.drop_conn(m, regions, out[i], hart);
            proof {
                assert(out@.take(i + 1).drop_last() =~= out@.take(i as int));
                assert(out@.take(i + 1).last() == out@[i as int]);
            }
            i = i + 1;
        }
        proof {
            assert(out@.take(i as int) =~= out@);
        }
        out
    }

    /// Takes a channel's new socket into service and tells the manager.
    pub fn open(&mut self, net: &mut NetPackage, socket: u64, req: SocketReq) -> (r: Result<
        (),
        Association,
    >)
        ensures
            final(self).conns@ == old(self).conns@.insert(socket, req),
            old(net)@.associations.len() < 7 ==> r is Ok && final(net)@ == (NetView {
                associations: old(net)@.associations.push(Association { pid: req.pid, socket }),
                ..old(net)@
            }),
            old(net)@.associations.len() >= 7 ==> r == Err::<(), Association>(
                Association { pid: req.pid, socket },
            ) && final(net)@ == old(net)@,
    {
        let _ = self.conns.insert(socket, req);
        net.associate(Association { pid: req.pid, socket })
    }
}

/// Takes note of one connection's update: wakes the owner if there is news for
/// it, and tells whether the device should be polled again at once.
pub fn note_update(wakes: &mut WakeQueue, pid: u16, u: SocketUpdate) -> (r: bool)
    ensures
        r == wants_poll(u),
        final(wakes)@ == (if u.wake_user {
            old(wakes)@.pushed(WakeEvent::Pid(pid))
        } else {
            old(wakes)@
        }),
{
    if u.wake_user {
        let _ = wake_queue_push(wakes, WakeEvent::Pid(pid));
    }
    u.recv_after > 0 || u.send_after > 0 || u.recv_after != u.recv_before || u.wake_user
}

/// Longest time that the network thread sleeps, in ticks.
pub const NET_HEARTBEAT: u64 = 1_000_000;

/// When the network thread wakes next: at the stack's own deadline, given in
/// microseconds, or at the heartbeat, whichever comes first.
pub fn net_deadline(now: u64, poll_at: Option<u64>) -> (r: u64)
    requires
        now + NET_HEARTBEAT <= u64::MAX,
        poll_at matches Some(us) ==> us * TICKS_PER_MICRO <= u64::MAX,
    ensures
        r == (match poll_at {
            Some(us) => if us * TICKS_PER_MICRO < now + NET_HEARTBEAT {
                us * TICKS_PER_MICRO
            } else {
                now + NET_HEARTBEAT
            },
            None => now + NET_HEARTBEAT,
        }),
{
    let beat: u64 = now + NET_HEARTBEAT;
    match poll_at {
        Some(us) => {
            let t: u64 = us * TICKS_PER_MICRO;
            if t < beat {
                t
            } else {
                beat
            }
        },
        None => beat,
    }
}

/// What the address server has to say.
#[derive(Clone, Copy, Debug, PartialEq, Eq, Structural)]
pub enum DhcpEvent {
    Configured { address: Cidr, router: Option<u32> },
    Deconfigured,
}

/// An address and the length of its network's prefix.
#[derive(Clone, Copy, Debug, PartialEq, Eq, Structural)]
pub struct Cidr {
    pub address: u32,
    pub prefix: u8,
}

/// The address of the interface and its default gateway.
#[derive(Clone, Copy, Debug, PartialEq, Eq, Structural)]
pub struct NetConfig {
    pub address: Option<Cidr>,
    pub gateway: Option<u32>,
}

/// Takes over what the address server says. A configuration replaces address
/// and gateway, also by none; losing it drops both.
pub fn handle_dhcp_event(c: NetConfig, event: DhcpEvent) -> (r: NetConfig)
    ensures
        r == (match event {
            DhcpEvent::Configured { address, router } => NetConfig {
                address: Some(address),
                gateway: router,
            },
            DhcpEvent::Deconfigured => NetConfig { address: None, gateway: None },
        }),
{
    match event {
        DhcpEvent::Configured { address, router } => NetConfig {
            address: Some(address),
            gateway: router,
        },
        DhcpEvent::Deconfigured => NetConfig { address: None, gateway: None },
    }
}

/// Whether a connection carries a stream whose socket is to be updated.
pub open spec fn is_stream(req: SocketReq) -> bool {
    req.nc_type == 0
}

impl NetConns {
    /// Takes the socket that was made for a channel into service. The owner is
    /// woken if arming the socket left news for it, and the manager is told.
    pub fn opened(
        &mut self,
        net: &mut NetPackage,
        wakes: &mut WakeQueue,
        socket: u64,
        req: SocketReq,
        wake_user: bool,
    ) -> (r: Result<(), Association>)
        ensures
            final(self).conns@ == old(self).conns@.insert(socket, req),
            final(wakes)@ == (if wake_user {
                old(wakes)@.pushed(WakeEvent::Pid(req.pid))
            } else {
                old(wakes)@
            }),
            old(net)@.associations.len() < 7 ==> r is Ok && final(net)@ == (NetView {
                associations: old(net)@.associations.push(Association { pid: req.pid, socket }),
                ..old(net)@
            }),
            old(net)@.associations.len() >= 7 ==> r == Err::<(), Association>(
                Association { pid: req.pid, socket },
            ) && final(net)@ == old(net)@,
    {
        if wake_user {
            let _ = wake_queue_push(wakes, WakeEvent::Pid(req.pid));
        }
        self.open(net, socket, req)
    }
}

/// The requests of all harts from hart `h` on that want a stream socket, hart
/// by hart, oldest first.
pub open spec fn stream_requests(reqs: Seq<Seq<SocketReq>>, h: int) -> Seq<SocketReq>
    decreases reqs.len() - h,
{
    if h >= reqs.len() {
        Seq::empty()
    } else {
        reqs[h].filter(|r: SocketReq| is_stream(r)) + stream_requests(reqs, h + 1)
    }
}

/// The channels of requests that want no stream, oldest first.
pub open spec fn other_channels(q: Seq<SocketReq>) -> Seq<u64>
    decreases q.len(),
{
    if q.len() == 0 {
        Seq::empty()
    } else if is_stream(q[0]) {
        other_channels(q.skip(1))
    } else {
        seq![q[0].netchan.pa] + other_channels(q.skip(1))
    }
}

/// The same for the requests of all harts from hart `h` on, hart by hart.
pub open spec fn turned_away(reqs: Seq<Seq<SocketReq>>, h: int) -> Seq<u64>
    decreases reqs.len() - h,
{
    if h >= reqs.len() {
        Seq::empty()
    } else {
        other_channels(reqs[h]) + turned_away(reqs, h + 1)
    }
}

/// Takes all requests and keeps those that want a stream socket, hart by hart,
/// oldest first. The others let go of their channel.
pub fn take_streams(m: &mut Machine, regions: &mut SharedRegions, hart: usize) -> (r: Vec<
    SocketReq,
>)
    requires
        regions_ok(old(regions)@),
        hart < old(m).frees@.len(),
    ensures
        r@ == stream_requests(old(m).net@.reqs, 0),
        final(m).net@ == (NetView {
            reqs: Seq::new(old(m).net@.reqs.len(), |i: int| Seq::<SocketReq>::empty()),
            ..old(m).net@
        }),
        holds_of(*final(regions), final(m).frees, final(m).effects@) == holds_of(
            *old(regions),
            old(m).frees,
            old(m).effects@,
        ).all_released(turned_away(old(m).net@.reqs, 0), hart as int),
        regions_ok(final(regions)@),
        final(m).frees@.len() == old(m).frees@.len(),
        *final(m) == (Machine {
            net: final(m).net,
            frees: final(m).frees,
            effects: final(m).effects,
            ..*old(m)
        }),
{
    let ghost start = m.net@.reqs;
    let ghost held = holds_of(*regions, m.frees, m.effects@);
    let ghost mut away: Seq<u64> = Seq::empty();
    let n: usize = m.net.harts();
    let mut out: Vec<SocketReq> = Vec::new();
    let ghost f = |r: SocketReq| is_stream(r);
    let mut h: usize = 0;
    proof {
        assert(out@ + stream_requests(start, 0) =~= stream_requests(start, 0));
        assert(away + turned_away(start, 0) =~= turned_away(start, 0));
    }
    while h < n
        invariant
            h <= n,
            n == start.len(),
            start == old(m).net@.reqs,
            m.net@.reqs.len() == n,
            f == (|r: SocketReq| is_stream(r)),
            forall|j: int|
                0 <= j < h ==> #[trigger] m.net@.reqs[j] == Seq::<SocketReq>::empty(),
            forall|j: int| h <= j < n ==> #[trigger] m.net@.reqs[j] == start[j],
            out@ + stream_requests(start, h as int) == stream_requests(start, 0),
            away + turned_away(start, h as int) == turned_away(start, 0),
            holds_of(*regions, m.frees, m.effects@) == held.all_released(away, hart as int),
            regions_ok(regions@),
            m.frees@.len() == old(m).frees@.len(),
            hart < m.frees@.len(),
            m.net@.associations == old(m).net@.associations,
            m.net@.deletions == old(m).net@.deletions,
            *m == (Machine { net: m.net, frees: m.frees, effects: m.effects, ..*old(m) }),
        decreases n - h,
    {
        let ghost tail = stream_requests(start, h + 1);
        let ghost rest = turned_away(start, h + 1);
        proof {
            assert(m.net@.reqs[h as int] == start[h as int]);
            assert(out@ + start[h as int].filter(f) + tail =~= stream_requests(start, 0));
            assert(away + other_channels(start[h as int]) + rest =~= turned_away(start, 0));
        }
        loop
            invariant
                h < n,
                n == start.len(),
                m.net@.reqs.len() == n,
                f == (|r: SocketReq| is_stream(r)),
                forall|j: int|
                    0 <= j < h ==> #[trigger] m.net@.reqs[j] == Seq::<SocketReq>::empty(),
                forall|j: int| h < j < n ==> #[trigger] m.net@.reqs[j] == start[j],
                out@ + m.net@.reqs[h as int].filter(f) + tail == stream_requests(start, 0),
                away + other_channels(m.net@.reqs[h as int]) + rest == turned_away(start, 0),
                holds_of(*regions, m.frees, m.effects@) == held.all_released(away, hart as int),
                regions_ok(regions@),
                m.frees@.len() == old(m).frees@.len(),
                hart < m.frees@.len(),
                m.net@.associations == old(m).net@.associations,
                m.net@.deletions == old(m).net@.deletions,
                *m == (Machine { net: m.net, frees: m.frees, effects: m.effects, ..*old(m) }),
            ensures
                m.net@.reqs[h as int].len() == 0,
            decreases m.net@.reqs[h as int].len(),
        {
            let ghost q = m.net@.reqs[h as int];
            let ghost before = out@;
            let ghost gone = away;
            match m.net.take_request(h) {
                Some(req) => {
                    proof {
                        assert(q =~= seq![q[0]] + q.skip(1));
                        lemma_filter_cons(q, f);
                    }
                    if req.nc_type == 0 {
                        out.push(req);
                        proof {
                            assert(out@ + q.skip(1).filter(f) + tail =~= before + q.filter(f)
                                + tail);
                        }
                    } else {
                        let_go(regions, &mut m.frees, &mut m.effects, req.netchan.pa, hart);
                        proof {
                            away = gone.push(req.netchan.pa);
                            assert(away.drop_last() =~= gone);
                            assert(away + other_channels(q.skip(1)) + rest =~= gone
                                + other_channels(q) + rest);
                        }
                    }
                },
                None => {
                    break ;
                },
            }
        }
        proof {
            assert(m.net@.reqs[h as int] =~= Seq::<SocketReq>::empty());
            assert(m.net@.reqs[h as int].filter(f) =~= Seq::<SocketReq>::empty()) by {
                reveal(Seq::filter);
            }
            assert(out@ + stream_requests(start, h + 1) =~= stream_requests(start, 0));
            assert(away + turned_away(start, h + 1) =~= turned_away(start, 0));
        }
        h = h + 1;
    }
    proof {
        assert(out@ + stream_requests(start, n as int) =~= out@);
        assert(away + turned_away(start, n as int) =~= away);
        assert(m.net@.reqs =~= Seq::new(start.len(), |i: int| Seq::<SocketReq>::empty()));
    }
    out
}

pub proof fn lemma_filter_cons(q: Seq<SocketReq>, f: spec_fn(SocketReq) -> bool)
    requires
        q.len() > 0,
    ensures
        q.filter(f) == (if f(q[0]) {
            seq![q[0]] + q.skip(1).filter(f)
        } else {
            q.skip(1).filter(f)
        }),
    decreases q.len(),
{
    reveal(Seq::filter);
    if q.len() == 1 {
        assert(q.drop_last() =~= Seq::<SocketReq>::empty());
        assert(q.drop_last().filter(f) =~= Seq::<SocketReq>::empty());
        assert(q.skip(1).filter(f) =~= Seq::<SocketReq>::empty());
        if f(q[0]) {
            assert(q.filter(f) =~= seq![q[0]]);
        }
    } else {
        let p = q.drop_last();
        lemma_filter_cons(p, f);
        assert(p.skip(1) =~= q.skip(1).drop_last());
        assert(q.skip(1).last() == q.last());
        if f(q[0]) {
            if f(q.last()) {
                assert(q.filter(f) =~= seq![q[0]] + q.skip(1).filter(f));
            }
        }
    }
}

/// An association is never lost on a live process: afterwards the process has
/// the socket and every other process has what it had.
pub proof fn law_association_reaches_its_process(s: SocketState, a: Association, other: u16)
    requires
        s.sockets.contains_key(a.pid),
        s.sockets.contains_key(other),
    ensures
        associated(s, a).sockets[a.pid].contains(a.socket),
        associated(s, a).deletions == s.deletions,
        other != a.pid ==> associated(s, a).sockets[other] == s.sockets[other],
{
}

/// The connections of a revoked channel are listed, and no others are.
pub proof fn law_revoked_connections_are_found(
    conns: Map<u64, SocketReq>,
    regions: Map<u64, Region>,
)
    ensures
        ({
            let r = revoked_sockets(conns, regions);
            &&& forall|s: u64| #[trigger]
                r.contains(s) <==> conns.contains_key(s) && regions.contains_key(
                    conns[s].netchan.pa,
                ) && regions[conns[s].netchan.pa].revoked
        }),
{
    let p = |s: u64| conn_revoked(regions, conns[s]);
    let all = sorted64(conns.dom());
    crate::tables::lemma_listed64(conns.dom());
    let r = revoked_sockets(conns, regions);
    assert forall|s: u64| #[trigger]
        r.contains(s) <==> conns.contains_key(s) && regions.contains_key(conns[s].netchan.pa)
            && regions[conns[s].netchan.pa].revoked by {
        assert(conns.dom().contains(s) <==> all.contains(s));
        if r.contains(s) {
            let i = choose|i: int| 0 <= i < r.len() && r[i] == s;
            all.lemma_filter_pred(p, i);
            all.lemma_filter_contains_rev(p, s);
        }
        if all.contains(s) && p(s) {
            let i = choose|i: int| 0 <= i < all.len() && all[i] == s;
            all.lemma_filter_contains(p, i);
        }
    }
}

/// A socket of a process that has gone is queued to be closed while there is
/// room, and belongs to nobody.
pub proof fn law_a_socket_without_a_process_is_closed(s: SocketState, a: Association)
    requires
        !s.sockets.contains_key(a.pid),
    ensures
        associated(s, a).sockets == s.sockets,
        s.deletions.len() < 7 ==> associated(s, a).deletions.last() == a.socket && associated(
            s,
            a,
        ).deletions.drop_last() == s.deletions,
        s.deletions.len() >= 7 ==> associated(s, a).deletions == s.deletions,
{
    assert(s.deletions.push(a.socket).drop_last() =~= s.deletions);
}

/// Sockets are handed over in the order in which they were announced.
pub proof fn law_associations_are_taken_in_order(s: SocketState, q: Seq<Association>, a: Association)
    ensures
        associated_all(s, q.push(a)) == associated(associated_all(s, q), a),
    decreases q.len(),
{
    let t = q.push(a);
    if q.len() == 0 {
        assert(t.skip(1) =~= Seq::<Association>::empty());
        assert(t[0] == a);
        assert(associated_all(associated(s, a), t.skip(1)) == associated(s, a));
    } else {
        assert(t[0] == q[0]);
        assert(t.skip(1) =~= q.skip(1).push(a));
        law_associations_are_taken_in_order(associated(s, q[0]), q.skip(1), a);
    }
}

/// A connection that is dropped lets go of its channel once; one that is not
/// there lets go of nothing, and the others stay as they are.
pub proof fn law_a_dropped_connection_lets_go_once(c: ConnState, socket: u64, hart: int, other: u64)
    requires
        other != socket,
    ensures
        !c.dropped(socket, hart).conns.contains_key(socket),
        c.dropped(socket, hart).dropped(socket, hart) == c.dropped(socket, hart),
        c.dropped(socket, hart).conns.contains_key(other) == c.conns.contains_key(other),
        c.conns.contains_key(other) ==> c.dropped(socket, hart).conns[other] == c.conns[other],
        !c.conns.contains_key(socket) ==> c.dropped(socket, hart).holds == c.holds,
        c.conns.contains_key(socket) ==> c.dropped(socket, hart).holds == c.holds.released(
            c.conns[socket].netchan.pa,
            hart,
        ),
{
}

/// An update calls for another poll unless it left both queues empty, moved
/// nothing and has no news for its user.
pub proof fn law_only_idle_updates_call_for_no_poll(u: SocketUpdate)
    ensures
        wants_poll(u) <==> !(u.recv_before == 0 && u.recv_after == 0 && u.send_after == 0
            && !u.wake_user),
{
}

proof fn lemma_streams_of_one(q: Seq<SocketReq>, r: SocketReq)
    ensures
        q.push(r).filter(|x: SocketReq| is_stream(x)) == (if r.nc_type == 0 {
            q.filter(|x: SocketReq| is_stream(x)).push(r)
        } else {
            q.filter(|x: SocketReq| is_stream(x))
        }),
{
    reveal(Seq::filter);
    assert(q.push(r).drop_last() =~= q);
}

proof fn lemma_others_of_one(q: Seq<SocketReq>, r: SocketReq)
    ensures
        other_channels(q.push(r)) == (if r.nc_type == 0 {
            other_channels(q)
        } else {
            other_channels(q).push(r.netchan.pa)
        }),
    decreases q.len(),
{
    let t = q.push(r);
    if q.len() == 0 {
        assert(t.skip(1) =~= Seq::<SocketReq>::empty());
        assert(other_channels(t.skip(1)) =~= Seq::<u64>::empty());
        assert(t[0] == r);
        assert(other_channels(t) =~= if r.nc_type == 0 {
            other_channels(q)
        } else {
            other_channels(q).push(r.netchan.pa)
        });
    } else {
        assert(t[0] == q[0]);
        assert(t.skip(1) =~= q.skip(1).push(r));
        lemma_others_of_one(q.skip(1), r);
        assert(other_channels(t) =~= if r.nc_type == 0 {
            other_channels(q)
        } else {
            other_channels(q).push(r.netchan.pa)
        });
    }
}

/// Every request for a channel is taken: one for a stream is opened, behind
/// those that came before it, and one for anything else is turned away.
pub proof fn law_every_request_is_opened_or_turned_away(
    reqs: Seq<Seq<SocketReq>>,
    q: Seq<SocketReq>,
    r: SocketReq,
)
    ensures
        reqs.len() > 0 && reqs.last() == q.push(r) ==> ({
            let before = reqs.drop_last().push(q);
            &&& stream_requests(reqs, 0) == (if r.nc_type == 0 {
                stream_requests(before, 0).push(r)
            } else {
                stream_requests(before, 0)
            })
            &&& turned_away(reqs, 0) == (if r.nc_type == 0 {
                turned_away(before, 0)
            } else {
                turned_away(before, 0).push(r.netchan.pa)
            })
        }),
        stream_requests(Seq::empty(), 0).len() == 0,
        turned_away(Seq::empty(), 0).len() == 0,
{
    if reqs.len() > 0 && reqs.last() == q.push(r) {
        lemma_last_request(reqs, q, r, 0);
    }
}

proof fn lemma_last_request(reqs: Seq<Seq<SocketReq>>, q: Seq<SocketReq>, r: SocketReq, h: int)
    requires
        0 <= h < reqs.len(),
        reqs.last() == q.push(r),
    ensures
        ({
            let before = reqs.drop_last().push(q);
            &&& stream_requests(reqs, h) == (if r.nc_type == 0 {
                stream_requests(before, h).push(r)
            } else {
                stream_requests(before, h)
            })
            &&& turned_away(reqs, h) == (if r.nc_type == 0 {
                turned_away(before, h)
            } else {
                turned_away(before, h).push(r.netchan.pa)
            })
        }),
    decreases reqs.len() - h,
{
    let before = reqs.drop_last().push(q);
    if h == reqs.len() - 1 {
        lemma_streams_of_one(q, r);
        lemma_others_of_one(q, r);
        assert(reqs[h] == q.push(r) && before[h] == q);
        assert(stream_requests(reqs, h + 1) =~= Seq::empty());
        assert(stream_requests(before, h + 1) =~= Seq::empty());
        assert(turned_away(reqs, h + 1) =~= Seq::empty());
        assert(turned_away(before, h + 1) =~= Seq::empty());
    } else {
        lemma_last_request(reqs, q, r, h + 1);
        assert(reqs[h] == before[h]);
    }
    assert(stream_requests(reqs, h) =~= if r.nc_type == 0 {
        stream_requests(before, h).push(r)
    } else {
        stream_requests(before, h)
    });
    assert(turned_away(reqs, h) =~= if r.nc_type == 0 {
        turned_away(before, h)
    } else {
        turned_away(before, h).push(r.netchan.pa)
    });
}

} // verus!
