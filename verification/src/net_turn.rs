//! One turn of the network thread: poll the device, drop sockets, update the
//! connections, poll again if that left segments to send, open sockets, park.

#[allow(unused_imports)]
use crate::hart::TICKS_PER_MICRO;
#[allow(unused_imports)]
use crate::holds::{holds_of, Holds};
#[allow(unused_imports)]
use crate::net::{
    conn_revoked, conn_state, is_stream, revoked_sockets, stream_requests, turned_away, wants_poll,
    Association, ConnState, NetView, NET_HEARTBEAT,
};
use crate::net::{net_deadline, note_update, take_streams, NetConns, SocketReq, SocketUpdate};
#[allow(unused_imports)]
use crate::orbit::Queues;
#[allow(unused_imports)]
use crate::rings::{WakeEvent, WakeView};
#[allow(unused_imports)]
use crate::shared_user_ptr::Region;
use crate::shared_user_ptr::SharedRegions;
use crate::tables::keys64;
#[allow(unused_imports)]
use crate::tables::sorted64;
use crate::world::Machine;
#[allow(unused_imports)]
use crate::world::regions_ok;
use vstd::prelude::*;

verus! {

broadcast use {vstd::laws_cmp::group_laws_cmp, vstd::std_specs::btree::group_btree_axioms};

/// Most polls of the device in a row.
pub const POLL_ROUNDS: u8 = 8;

/// How far a turn has got, by what it waits for.
#[derive(Clone, Copy, Debug, PartialEq, Eq, Structural)]
pub enum NetStage {
    FirstPolls,
    Closing,
    Updating { socket: u64, pid: u16 },
    Pruning,
    SecondPolls,
    Timing,
    Opening { req: SocketReq },
    Parked,
}

/// What the thread does next with the device and the sockets.
#[derive(Debug, PartialEq, Eq)]
pub enum NetAction {
    /// Poll the device once and serve the address server's news.
    Poll,
    /// Remove these sockets.
    Close(Vec<u64>),
    /// Move bytes between a socket and its channel.
    Update { socket: u64 },
    /// Ask the stack when it wants to be polled.
    AskDeadline,
    /// Make and arm a socket for a channel.
    Open { req: SocketReq },
    /// Sleep until this tick, or until somebody wakes the thread.
    Park { until: u64 },
}

/// What came of the last action.
#[derive(Clone, Copy, Debug, PartialEq, Eq, Structural)]
pub enum NetEvent {
    /// Whether the poll had anything to do, and the clock after it.
    Polled { progress: bool, now: u64 },
    Closed,
    Updated(SocketUpdate),
    /// The stack's deadline in microseconds.
    Deadline(Option<u64>),
    /// The new socket, and whether arming it left news for its owner.
    Opened { socket: u64, wake_user: bool },
}

pub struct NetTurn {
    stage: NetStage,
    left: u8,
    now: u64,
    second: bool,
    todo: Vec<u64>,
    at: usize,
    opens: Vec<SocketReq>,
    open_at: usize,
    until: u64,
}

/// A turn: its stage, the polls left in the present round, the clock, whether a
/// second round is due, the sockets not looked at yet, the channels without a
/// socket yet, and when the thread wakes.
#[verifier::ext_equal]
pub struct TurnView {
    pub stage: NetStage,
    pub left: int,
    pub now: u64,
    pub second: bool,
    pub todo: Seq<u64>,
    pub opens: Seq<SocketReq>,
    pub until: u64,
}

impl View for NetTurn {
    type V = TurnView;

    closed spec fn view(&self) -> TurnView {
        TurnView {
            stage: self.stage,
            left: self.left as int,
            now: self.now,
            second: self.second,
            todo: self.todo@.skip(self.at as int),
            opens: self.opens@.skip(self.open_at as int),
            until: self.until,
        }
    }
}

#[verifier::ext_equal]
pub enum ActionView {
    Poll,
    Close(Seq<u64>),
    Update { socket: u64 },
    AskDeadline,
    Open { req: SocketReq },
    Park { until: u64 },
}

impl View for NetAction {
    type V = ActionView;

    open spec fn view(&self) -> ActionView {
        match *self {
            NetAction::Poll => ActionView::Poll,
            NetAction::Close(v) => ActionView::Close(v@),
            NetAction::Update { socket } => ActionView::Update { socket },
            NetAction::AskDeadline => ActionView::AskDeadline,
            NetAction::Open { req } => ActionView::Open { req },
            NetAction::Park { until } => ActionView::Park { until },
        }
    }
}

/// A turn and what it works on.
#[verifier::ext_equal]
pub struct NetState {
    pub turn: TurnView,
    pub conns: Map<u64, SocketReq>,
    pub holds: Holds,
    pub net: NetView,
    pub wakes: WakeView,
}

/// Whether the socket of a stream moves bytes in this turn.
pub open spec fn to_update(
    conns: Map<u64, SocketReq>,
    regions: Map<u64, Region>,
    socket: u64,
) -> bool {
    conns.contains_key(socket) && is_stream(conns[socket]) && !conn_revoked(regions, conns[socket])
}

/// The sockets from the next one on that moves bytes.
pub open spec fn skip_idle(
    todo: Seq<u64>,
    conns: Map<u64, SocketReq>,
    regions: Map<u64, Region>,
) -> Seq<u64>
    decreases todo.len(),
{
    if todo.len() == 0 || to_update(conns, regions, todo[0]) {
        todo
    } else {
        skip_idle(todo.skip(1), conns, regions)
    }
}

impl NetState {
    /// The connections of these sockets go.
    pub open spec fn closed(self, gone: Seq<u64>, hart: int) -> NetState {
        let c = ConnState { conns: self.conns, holds: self.holds }.all_dropped(gone, hart);
        NetState { conns: c.conns, holds: c.holds, ..self }
    }

    /// The device has been polled: sockets that are to be deleted go, and those
    /// whose channel was revoked.
    pub open spec fn polled_out(self, hart: int) -> (NetState, ActionView) {
        let gone = self.net.deletions;
        let w = self.closed(gone, hart);
        let revoked = revoked_sockets(w.conns, w.holds.regions);
        (
            NetState {
                turn: TurnView { stage: NetStage::Closing, ..self.turn },
                net: NetView { deletions: Seq::empty(), ..self.net },
                ..w.closed(revoked, hart)
            },
            ActionView::Close(gone + revoked),
        )
    }

    /// The next connection is updated; after the last one the connections that
    /// were revoked meanwhile go.
    pub open spec fn next_update(self, hart: int) -> (NetState, ActionView) {
        let todo = skip_idle(self.turn.todo, self.conns, self.holds.regions);
        if todo.len() == 0 {
            let revoked = revoked_sockets(self.conns, self.holds.regions);
            (
                NetState {
                    turn: TurnView { stage: NetStage::Pruning, todo, ..self.turn },
                    ..self.closed(revoked, hart)
                },
                ActionView::Close(revoked),
            )
        } else {
            (
                NetState {
                    turn: TurnView {
                        stage: NetStage::Updating {
                            socket: todo[0],
                            pid: self.conns[todo[0]].pid,
                        },
                        todo: todo.skip(1),
                        ..self.turn
                    },
                    ..self
                },
                ActionView::Update { socket: todo[0] },
            )
        }
    }

    /// The next channel gets a socket; after the last one the thread parks.
    pub open spec fn next_open(self) -> (NetState, ActionView) {
        if self.turn.opens.len() == 0 {
            (
                NetState { turn: TurnView { stage: NetStage::Parked, ..self.turn }, ..self },
                ActionView::Park { until: self.turn.until },
            )
        } else {
            let req = self.turn.opens[0];
            (
                NetState {
                    turn: TurnView {
                        stage: NetStage::Opening { req },
                        opens: self.turn.opens.skip(1),
                        ..self.turn
                    },
                    ..self
                },
                ActionView::Open { req },
            )
        }
    }

    pub open spec fn at_stage(self, stage: NetStage) -> NetState {
        NetState { turn: TurnView { stage, ..self.turn }, ..self }
    }

    /// What a poll found, within its round.
    pub open spec fn polled(self, now: u64) -> NetState {
        NetState { turn: TurnView { now, left: self.turn.left - 1, ..self.turn }, ..self }
    }

    /// When the thread wakes: at the stack's deadline or at the heartbeat,
    /// whichever comes first.
    pub open spec fn wakes_at(self, poll_at: Option<u64>) -> u64 {
        let beat = self.turn.now + NET_HEARTBEAT;
        match poll_at {
            Some(us) => if us * TICKS_PER_MICRO < beat {
                (us * TICKS_PER_MICRO) as u64
            } else {
                beat as u64
            },
            None => beat as u64,
        }
    }

    /// The owner of a connection is woken if there is news for it.
    pub open spec fn told(self, pid: u16, news: bool) -> NetState {
        if news {
            NetState { wakes: self.wakes.pushed(WakeEvent::Pid(pid)), ..self }
        } else {
            self
        }
    }

    /// A channel's socket is in service. The manager hears of it if its queue
    /// has room.
    pub open spec fn in_service(self, socket: u64, req: SocketReq) -> NetState {
        NetState {
            conns: self.conns.insert(socket, req),
            net: if self.net.associations.len() < 7 {
                NetView {
                    associations: self.net.associations.push(
                        Association { pid: req.pid, socket },
                    ),
                    ..self.net
                }
            } else {
                self.net
            },
            ..self
        }
    }

    /// All requests are taken. Those for a stream are to get a socket, the
    /// others let go of their channel.
    pub open spec fn requests_taken(self, hart: int) -> NetState {
        NetState {
            turn: TurnView { opens: stream_requests(self.net.reqs, 0), ..self.turn },
            holds: self.holds.all_released(turned_away(self.net.reqs, 0), hart),
            net: NetView {
                reqs: Seq::new(self.net.reqs.len(), |i: int| Seq::<SocketReq>::empty()),
                ..self.net
            },
            ..self
        }
    }

    /// One step of the turn.
    pub open spec fn stepped(self, e: NetEvent, hart: int) -> (
        NetState,
        ActionView,
    ) {
        match e {
            NetEvent::Polled { progress, now } => {
                let w = if progress {
                    self.polled(now)
                } else {
                    self
                };
                if progress && w.turn.left > 0 {
                    (w, ActionView::Poll)
                } else if self.turn.stage == NetStage::FirstPolls {
                    w.polled_out(hart)
                } else {
                    (w.at_stage(NetStage::Timing), ActionView::AskDeadline)
                }
            },
            NetEvent::Closed => if self.turn.stage == NetStage::Closing {
                NetState {
                    turn: TurnView { todo: sorted64(self.conns.dom()), ..self.turn },
                    ..self
                }.next_update(hart)
            } else if self.turn.second {
                (
                    NetState {
                        turn: TurnView {
                            stage: NetStage::SecondPolls,
                            left: POLL_ROUNDS as int,
                            ..self.turn
                        },
                        ..self
                    },
                    ActionView::Poll,
                )
            } else {
                (self.at_stage(NetStage::Timing), ActionView::AskDeadline)
            },
            NetEvent::Updated(u) => {
                let w = NetState {
                    turn: TurnView { second: self.turn.second || wants_poll(u), ..self.turn },
                    ..self.told(self.turn.stage->Updating_pid, u.wake_user)
                };
                w.next_update(hart)
            },
            NetEvent::Deadline(poll_at) => {
                let w = NetState {
                    turn: TurnView { until: self.wakes_at(poll_at), ..self.turn },
                    ..self
                };
                w.requests_taken(hart).next_open()
            },
            NetEvent::Opened { socket, wake_user } => {
                let req = self.turn.stage->req;
                self.told(req.pid, wake_user).in_service(socket, req).next_open()
            },
        }
    }
}

/// Whether a turn waits for an event of this kind.
pub open spec fn awaits(t: TurnView, e: NetEvent) -> bool {
    match e {
        NetEvent::Polled { .. } => (t.stage == NetStage::FirstPolls || t.stage
            == NetStage::SecondPolls) && t.left > 0,
        NetEvent::Closed => t.stage == NetStage::Closing || t.stage == NetStage::Pruning,
        NetEvent::Updated(_) => t.stage is Updating,
        NetEvent::Deadline(poll_at) => {
            &&& t.stage == NetStage::Timing
            &&& t.now + NET_HEARTBEAT <= u64::MAX
            &&& poll_at matches Some(us) ==> us * TICKS_PER_MICRO <= u64::MAX
        },
        NetEvent::Opened { .. } => t.stage is Opening,
    }
}

pub open spec fn net_state(t: NetTurn, c: NetConns, regions: SharedRegions, m: Machine) -> NetState {
    NetState {
        turn: t@,
        conns: c.conns@,
        holds: holds_of(regions, m.frees, m.effects@),
        net: m.net@,
        wakes: m.q.wakes@,
    }
}

impl NetTurn {
    pub closed spec fn wf(&self) -> bool {
        self.at <= self.todo@.len() && self.open_at <= self.opens@.len()
    }

    /// A new turn. Its first action is a poll.
    pub fn begin(now: u64) -> (r: Self)
        ensures
            r.wf(),
            r@ == (TurnView {
                stage: NetStage::FirstPolls,
                left: POLL_ROUNDS as int,
                now,
                second: false,
                todo: Seq::empty(),
                opens: Seq::empty(),
                until: now,
            }),
    {
        let r = NetTurn {
            stage: NetStage::FirstPolls,
            left: POLL_ROUNDS,
            now,
            second: false,
            todo: Vec::new(),
            at: 0,
            opens: Vec::new(),
            open_at: 0,
            until: now,
        };
        proof {
            assert(r@.todo =~= Seq::empty());
            assert(r@.opens =~= Seq::empty());
        }
        r
    }

    fn polled_out(
        &mut self,
        conns: &mut NetConns,
        m: &mut Machine,
        regions: &mut SharedRegions,
        hart: usize,
    ) -> (r: NetAction)
        requires
            old(self).wf(),
            regions_ok(old(regions)@),
            hart < old(m).frees@.len(),
        ensures
            final(self).wf(),
            (net_state(*final(self), *final(conns), *final(regions), *final(m)), r@) == net_state(
                *old(self),
                *old(conns),
                *old(regions),
                *old(m),
            ).polled_out(hart as int),
            regions_ok(final(regions)@),
            final(m).frees@.len() == old(m).frees@.len(),
            *final(m) == (Machine {
                net: final(m).net,
                frees: final(m).frees,
                effects: final(m).effects,
                ..*old(m)
            }),
    {
        let mut gone = conns.drain_deletions(m, regions, hart);
        let mut revoked = conns.prune_revoked(m, regions, hart);
        let ghost first = gone@;
        let ghost second = revoked@;
        gone.append(&mut revoked);
        self.stage = NetStage::Closing;
        proof {
            assert(gone@ =~= first + second);
        }
        NetAction::Close(gone)
    }

    fn next_update(
        &mut self,
        conns: &mut NetConns,
        m: &mut Machine,
        regions: &mut SharedRegions,
        hart: usize,
    ) -> (r: NetAction)
        requires
            old(self).wf(),
            regions_ok(old(regions)@),
            hart < old(m).frees@.len(),
        ensures
            final(self).wf(),
            (net_state(*final(self), *final(conns), *final(regions), *final(m)), r@) == net_state(
                *old(self),
                *old(conns),
                *old(regions),
                *old(m),
            ).next_update(hart as int),
            regions_ok(final(regions)@),
            final(m).frees@.len() == old(m).frees@.len(),
            *final(m) == (Machine {
                frees: final(m).frees,
                effects: final(m).effects,
                ..*old(m)
            }),
    {
        let ghost w = net_state(*self, *conns, *regions, *m);
        while self.at < self.todo.len()
            invariant
                self.wf(),
                conns.conns@ == w.conns,
                regions@ == w.holds.regions,
                skip_idle(self@.todo, w.conns, regions@) == skip_idle(
                    w.turn.todo,
                    w.conns,
                    regions@,
                ),
                self@ == (TurnView { todo: self@.todo, ..w.turn }),
                w == net_state(*old(self), *conns, *regions, *m),
                *m == *old(m),
                regions_ok(regions@),
            decreases self.todo@.len() - self.at,
        {
            let s: u64 = self.todo[self.at];
            let ghost before = self@;
            proof {
                assert(before.todo[0] == s);
                assert(before.todo.skip(1) =~= self.todo@.skip(self.at + 1));
            }
            self.at = self.at + 1;
            match conns.conns.get(&s) {
                Some(req) => {
                    let revoked: bool = match regions.regions.get(&req.netchan.pa) {
                        Some(g) => g.revoked,
                        None => false,
                    };
                    if req.nc_type == 0 && !revoked {
                        self.stage = NetStage::Updating { socket: s, pid: req.pid };
                        return NetAction::Update { socket: s };
                    }
                },
                None => {},
            }
        }
        proof {
            assert(self@.todo =~= Seq::empty());
        }
        let revoked = conns.prune_revoked(m, regions, hart);
        self.stage = NetStage::Pruning;
        NetAction::Close(revoked)
    }

    fn next_open(&mut self, Ghost(w): Ghost<NetState>) -> (r: NetAction)
        requires
            old(self).wf(),
            w == (NetState { turn: old(self)@, ..w }),
        ensures
            final(self).wf(),
            w.next_open() == (NetState { turn: final(self)@, ..w }, r@),
    {
        if self.open_at < self.opens.len() {
            let req = self.opens[self.open_at];
            let ghost before = self@;
            proof {
                assert(before.opens[0] == req);
                assert(before.opens.skip(1) =~= self.opens@.skip(self.open_at + 1));
            }
            self.open_at = self.open_at + 1;
            self.stage = NetStage::Opening { req };
            NetAction::Open { req }
        } else {
            self.stage = NetStage::Parked;
            NetAction::Park { until: self.until }
        }
    }

    /// Takes the outcome of the last action and tells the next one. The thread
    /// runs on `hart`.
    pub fn step(
        &mut self,
        conns: &mut NetConns,
        m: &mut Machine,
        regions: &mut SharedRegions,
        hart: usize,
        event: NetEvent,
    ) -> (r: NetAction)
        requires
            old(self).wf(),
            awaits(old(self)@, event),
            regions_ok(old(regions)@),
            hart < old(m).frees@.len(),
        ensures
            final(self).wf(),
            (net_state(*final(self), *final(conns), *final(regions), *final(m)), r@) == net_state(
                *old(self),
                *old(conns),
                *old(regions),
                *old(m),
            ).stepped(event, hart as int),
            regions_ok(final(regions)@),
            final(m).frees@.len() == old(m).frees@.len(),
            *final(m) == (Machine {
                net: final(m).net,
                frees: final(m).frees,
                effects: final(m).effects,
                q: Queues { wakes: final(m).q.wakes, ..old(m).q },
                ..*old(m)
            }),
    {
        let ghost w = net_state(*self, *conns, *regions, *m);
        match event {
            NetEvent::Polled { progress, now } => {
                if progress {
                    self.now = now;
                    self.left = self.left - 1;
                    if self.left > 0 {
                        return NetAction::Poll;
                    }
                }
                if self.stage == NetStage::FirstPolls {
                    self.polled_out(conns, m, regions, hart)
                } else {
                    self.stage = NetStage::Timing;
                    NetAction::AskDeadline
                }
            },
            NetEvent::Closed => {
                if self.stage == NetStage::Closing {
                    self.todo = keys64(&conns.conns);
                    self.at = 0;
                    proof {
                        assert(self@.todo =~= sorted64(conns.conns@.dom()));
                    }
                    self.next_update(conns, m, regions, hart)
                } else if self.second {
                    self.stage = NetStage::SecondPolls;
                    self.left = POLL_ROUNDS;
                    NetAction::Poll
                } else {
                    self.stage = NetStage::Timing;
                    NetAction::AskDeadline
                }
            },
            NetEvent::Updated(u) => {
                if let NetStage::Updating { pid, .. } = self.stage {
                    if note_update(&mut m.q.wakes, pid, u) {
                        self.second = true;
                    }
                }
                self.next_update(conns, m, regions, hart)
            },
            NetEvent::Deadline(poll_at) => {
                self.until = net_deadline(self.now, poll_at);
                self.opens = take_streams(m, regions, hart);
                self.open_at = 0;
                proof {
                    assert(self@.opens =~= stream_requests(w.net.reqs, 0));
                }
                let ghost v = net_state(*self, *conns, *regions, *m);
                self.next_open(Ghost(v))
            },
            NetEvent::Opened { socket, wake_user } => {
                if let NetStage::Opening { req } = self.stage {
                    let _ = conns.opened(&mut m.net, &mut m.q.wakes, socket, req, wake_user);
                }
                let ghost v = net_state(*self, *conns, *regions, *m);
                self.next_open(Ghost(v))
            },
        }
    }
}

/// How much of a turn is still ahead: its stages, and within a stage the polls,
/// connections or channels that are left.
pub open spec fn turn_ahead(t: TurnView) -> (int, int) {
    match t.stage {
        NetStage::FirstPolls => (7, t.left),
        NetStage::Closing => (6, 0),
        NetStage::Updating { .. } => (5, t.todo.len() as int),
        NetStage::Pruning => (4, 0),
        NetStage::SecondPolls => (3, t.left),
        NetStage::Timing => (2, 0),
        NetStage::Opening { .. } => (1, t.opens.len() as int),
        NetStage::Parked => (0, 0),
    }
}

proof fn lemma_skip_idle(todo: Seq<u64>, conns: Map<u64, SocketReq>, regions: Map<u64, Region>)
    ensures
        skip_idle(todo, conns, regions).len() <= todo.len(),
        skip_idle(todo, conns, regions).len() > 0 ==> to_update(
            conns,
            regions,
            skip_idle(todo, conns, regions)[0],
        ),
    decreases todo.len(),
{
    if todo.len() > 0 && !to_update(conns, regions, todo[0]) {
        lemma_skip_idle(todo.skip(1), conns, regions);
    }
}

/// A turn comes to an end: every step leaves less of it ahead.
pub proof fn law_net_turn_ends(w: NetState, e: NetEvent, hart: int)
    requires
        awaits(w.turn, e),
    ensures
        ({
            let before = turn_ahead(w.turn);
            let after = turn_ahead(w.stepped(e, hart).0.turn);
            &&& after.0 < before.0 || after.0 == before.0 && after.1 < before.1
            &&& after.0 >= 0 && after.1 >= 0
        }),
{
    lemma_skip_idle(w.turn.todo, w.conns, w.holds.regions);
    lemma_skip_idle(sorted64(w.conns.dom()), w.conns, w.holds.regions);
}

/// Only live streams are updated: the socket of an update belongs to a stream
/// whose channel was not revoked when the update was decided.
pub proof fn law_revoked_channels_are_left_alone(
    w: NetState,
    e: NetEvent,
    hart: int,
)
    requires
        awaits(w.turn, e),
    ensures
        w.stepped(e, hart).1 matches ActionView::Update { socket } ==> to_update(
            w.conns,
            w.holds.regions,
            socket,
        ),
{
    lemma_skip_idle(w.turn.todo, w.conns, w.holds.regions);
    lemma_skip_idle(sorted64(w.conns.dom()), w.conns, w.holds.regions);
}

/// Segments that an update left go out in the same turn: such an update calls
/// for a second round of polls, nothing before that round takes the call back,
/// and the thread asks for its deadline without that round only if no update
/// called for one.
pub proof fn law_segments_go_out_in_the_same_turn(
    w: NetState,
    e: NetEvent,
    hart: int,
)
    requires
        awaits(w.turn, e),
    ensures
        ({
            let after = w.stepped(e, hart);
            &&& e matches NetEvent::Updated(u) ==> wants_poll(u) ==> after.0.turn.second
            &&& w.turn.second ==> after.0.turn.second
            &&& w.turn.stage == NetStage::Pruning && w.turn.second ==> after.1 == ActionView::Poll
            &&& after.1 == ActionView::AskDeadline && w.turn.stage == NetStage::Pruning
                ==> !w.turn.second
        }),
{
}

/// The thread never sleeps past its heartbeat, and it is due at the latest when
/// the stack wants to be polled.
pub proof fn law_net_thread_does_not_oversleep(
    w: NetState,
    hart: int,
    poll_at: Option<u64>,
)
    requires
        awaits(w.turn, NetEvent::Deadline(poll_at)),
    ensures
        ({
            let t = w.stepped(NetEvent::Deadline(poll_at), hart).0.turn;
            &&& t.until <= w.turn.now + NET_HEARTBEAT
            &&& poll_at matches Some(us) ==> t.until <= us * TICKS_PER_MICRO
        }),
{
}

/// Every channel that asked for a stream gets its socket before the thread
/// parks, in the order of the requests: taking the requests takes them all, and
/// each socket that is made brings the next one or, after the last, the park.
pub proof fn law_channels_get_their_sockets(
    w: NetState,
    hart: int,
    poll_at: Option<u64>,
    socket: u64,
    wake_user: bool,
)
    ensures
        awaits(w.turn, NetEvent::Deadline(poll_at)) ==> ({
            let (s, a) = w.stepped(NetEvent::Deadline(poll_at), hart);
            let reqs = stream_requests(w.net.reqs, 0);
            if reqs.len() == 0 {
                a == ActionView::Park { until: s.turn.until }
            } else {
                a == ActionView::Open { req: reqs[0] } && s.turn.opens == reqs.skip(1)
            }
        }),
        awaits(w.turn, NetEvent::Opened { socket, wake_user }) ==> ({
            let (s, a) = w.stepped(NetEvent::Opened { socket, wake_user }, hart);
            &&& s.conns == w.conns.insert(socket, w.turn.stage->req)
            &&& if w.turn.opens.len() == 0 {
                a == ActionView::Park { until: w.turn.until }
            } else {
                a == ActionView::Open { req: w.turn.opens[0] } && s.turn.opens
                    == w.turn.opens.skip(1)
            }
        }),
{
}

/// The owner of a channel is woken for news, and nobody else is: on an
/// update the process the channel belongs to, on an opening the one that
/// asked for it.
pub proof fn law_news_wake_the_owner(
    w: NetState,
    e: NetEvent,
    hart: int,
)
    requires
        awaits(w.turn, e),
    ensures
        ({
            let after = w.stepped(e, hart).0;
            match e {
                NetEvent::Updated(u) if u.wake_user => w.turn.stage
                    matches NetStage::Updating { pid, .. } && after.wakes == w.wakes.pushed(
                    WakeEvent::Pid(pid),
                ),
                NetEvent::Opened { wake_user, .. } if wake_user => w.turn.stage
                    matches NetStage::Opening { req } && after.wakes == w.wakes.pushed(
                    WakeEvent::Pid(req.pid),
                ),
                _ => after.wakes == w.wakes,
            }
        }),
{
}

/// Going over the connections passes none by that is to be updated: the
/// next one is updated, with its own owner noted, and those left are later.
pub proof fn law_no_connection_is_passed_by(w: NetState, hart: int, k: int)
    requires
        0 <= k < w.turn.todo.len(),
        w.conns.contains_key(w.turn.todo[k]),
        w.conns[w.turn.todo[k]].nc_type == 0,
        !conn_revoked(w.holds.regions, w.conns[w.turn.todo[k]]),
    ensures
        ({
            let (s, a) = w.next_update(hart);
            &&& a matches ActionView::Update { socket }
            &&& s.turn.stage == (NetStage::Updating { socket, pid: w.conns[socket].pid })
            &&& socket == w.turn.todo[k] || s.turn.todo.contains(w.turn.todo[k])
            &&& s.conns == w.conns
        }),
{
    lemma_none_skipped(w.turn.todo, w.conns, w.holds.regions, k);
}

proof fn lemma_none_skipped(
    todo: Seq<u64>,
    conns: Map<u64, SocketReq>,
    regions: Map<u64, Region>,
    k: int,
)
    requires
        0 <= k < todo.len(),
        to_update(conns, regions, todo[k]),
    ensures
        ({
            let t = skip_idle(todo, conns, regions);
            &&& t.len() > 0
            &&& to_update(conns, regions, t[0])
            &&& t[0] == todo[k] || t.skip(1).contains(todo[k])
        }),
    decreases todo.len(),
{
    if to_update(conns, regions, todo[0]) {
        if k > 0 {
            assert(todo.skip(1)[k - 1] == todo[k]);
        }
    } else {
        assert(todo.skip(1)[k - 1] == todo[k]);
        lemma_none_skipped(todo.skip(1), conns, regions, k - 1);
    }
}

/// Polling goes on while it makes progress, at most for its rounds. After
/// that the sockets that are to be closed, and those of revoked channels,
/// are closed and gone from the connections.
pub proof fn law_polling_goes_on_while_it_helps(
    w: NetState,
    progress: bool,
    now: u64,
    hart: int,
    socket: u64,
)
    requires
        awaits(w.turn, NetEvent::Polled { progress, now }),
    ensures
        ({
            let (s, a) = w.stepped(NetEvent::Polled { progress, now }, hart);
            &&& a == ActionView::Poll <==> progress && w.turn.left > 1
            &&& progress ==> s.turn.now == now && s.turn.left == w.turn.left - 1
            &&& !progress ==> s.turn.now == w.turn.now
            &&& a != ActionView::Poll && w.turn.stage == NetStage::SecondPolls ==> a
                == ActionView::AskDeadline && s.conns == w.conns
            &&& a != ActionView::Poll && w.turn.stage == NetStage::FirstPolls ==> {
                &&& a matches ActionView::Close(gone)
                &&& s.net.deletions.len() == 0
                &&& w.net.deletions.contains(socket) ==> gone.contains(socket)
                &&& w.net.deletions.contains(socket) ==> !s.conns.contains_key(socket)
                &&& gone.take(w.net.deletions.len() as int) == w.net.deletions
                &&& s.turn.stage == NetStage::Closing
            }
            &&& a == ActionView::Poll ==> s.conns == w.conns && s.turn.stage == w.turn.stage
        }),
{
    let v = if progress {
        w.polled(now)
    } else {
        w
    };
    let gone = w.net.deletions;
    let c1 = ConnState { conns: v.conns, holds: v.holds };
    crate::net::law_only_dropped_connections_go(c1, gone, hart);
    let c = v.closed(gone, hart);
    let revoked = revoked_sockets(c.conns, c.holds.regions);
    crate::net::law_only_dropped_connections_go(
        ConnState { conns: c.conns, holds: c.holds },
        revoked,
        hart,
    );
    let all = gone + revoked;
    assert(all.take(gone.len() as int) =~= gone);
    if gone.contains(socket) {
        let i = choose|i: int| 0 <= i < gone.len() && gone[i] == socket;
        assert(all[i] == socket);
        assert(gone.to_set().contains(socket));
    }
}

/// Once the closing is done every connection is gone over, from the lowest
/// socket on.
pub proof fn law_every_connection_is_gone_over(w: NetState, hart: int, socket: u64)
    requires
        w.turn.stage == NetStage::Closing,
        w.conns.contains_key(socket),
        w.conns[socket].nc_type == 0,
        !conn_revoked(w.holds.regions, w.conns[socket]),
    ensures
        ({
            let (s, a) = w.stepped(NetEvent::Closed, hart);
            &&& a matches ActionView::Update { socket: first }
            &&& first == socket || s.turn.todo.contains(socket)
        }),
{
    crate::tables::lemma_listed64(w.conns.dom());
    let todo = sorted64(w.conns.dom());
    assert(w.conns.dom().contains(socket));
    assert(todo.contains(socket));
    let k = choose|k: int| 0 <= k < todo.len() && todo[k] == socket;
    let v = NetState { turn: TurnView { todo, ..w.turn }, ..w };
    law_no_connection_is_passed_by(v, hart, k);
}

/// The thread sleeps until the earlier of its heartbeat and the time the
/// stack asks for, and exactly until then.
pub proof fn law_the_thread_sleeps_until_it_is_due(w: NetState, hart: int, poll_at: Option<u64>)
    requires
        awaits(w.turn, NetEvent::Deadline(poll_at)),
    ensures
        ({
            let t = w.stepped(NetEvent::Deadline(poll_at), hart).0.turn.until;
            &&& t == w.turn.now + 1_000_000 || (poll_at matches Some(us) && t == us * 10)
            &&& t <= w.turn.now + 1_000_000
            &&& poll_at matches Some(us) ==> t <= us * 10
        }),
{
}

/// A socket that was opened is announced to the process that asked for it
/// while there is room, and the requests are taken once.
pub proof fn law_an_opened_socket_is_announced(
    w: NetState,
    hart: int,
    poll_at: Option<u64>,
    socket: u64,
    wake_user: bool,
    req: SocketReq,
)
    ensures
        w.turn.stage == (NetStage::Opening { req }) ==> ({
            let s = w.stepped(NetEvent::Opened { socket, wake_user }, hart).0;
            &&& s.conns.contains_key(socket) && s.conns[socket] == req
            &&& w.net.associations.len() < 7 ==> s.net.associations == w.net.associations.push(
                Association { pid: req.pid, socket },
            )
            &&& w.net.associations.len() >= 7 ==> s.net.associations == w.net.associations
            &&& s.net.deletions == w.net.deletions && s.net.reqs == w.net.reqs
        }),
        awaits(w.turn, NetEvent::Deadline(poll_at)) ==> ({
            let s = w.stepped(NetEvent::Deadline(poll_at), hart).0;
            &&& s.net.reqs.len() == w.net.reqs.len()
            &&& forall|h: int| 0 <= h < s.net.reqs.len() ==> #[trigger] s.net.reqs[h].len() == 0
            &&& s.holds == w.holds.all_released(turned_away(w.net.reqs, 0), hart)
            &&& s.conns == w.conns
        }),
{
}

} // verus!
