//! The relay handler: the protocol state machine that interprets each
//! inbound message for one connection against the session table.
//!
//! A peer starts unjoined, joins or creates a session with `NewSession`, and
//! then relays payloads to the other members until it shuts down or its
//! transport closes. A message that is not valid for the peer's current state
//! is ignored: no transition, no reply, and the connection stays open.
//!
//! Acknowledgment policy, applied uniformly: `NewSession`, `RawData` and
//! `EndSession` are answered with `Success`, a client-initiated `Shutdown`
//! is answered with `Shutdown`, and `Data` gets no reply.

use vstd::prelude::*;

use crate::codec;
use crate::codec::Decoded;
use crate::registry::has_token;
use crate::registry::token_idx;
use crate::registry::ConnKind;
use crate::registry::ConnView;
use crate::registry::InterestSet;
use crate::registry::RegStatus;
use crate::registry::Registry;
use crate::session::has_session;
use crate::session::lemma_join_keeps_memberships;
use crate::session::lemma_pending_only_keeps_memberships;
use crate::session::lemma_remove_keeps_other_memberships;
use crate::session::session_of;
use crate::session::queued_for;
use crate::session::session_idx;
use crate::session::spec_broadcast;
use crate::session::spec_enqueue;
use crate::session::spec_join;
use crate::session::spec_notify_host;
use crate::session::spec_remove_member;
use crate::session::table_wf;
use crate::session::SessionTable;
use crate::session::SessionView;
use crate::MsgView;
use crate::NetworkMessage;

verus! {

/// Protocol state of one peer connection.
pub enum PeerPhase {
    /// Connected, not yet in any session.
    Unjoined,
    /// A member of the named session.
    Joined(String),
    /// Shut down or disconnected; the connection is being retired.
    Closed,
}

/// Mathematical model of a peer's protocol state.
pub enum PhaseView {
    Unjoined,
    Joined(Seq<char>),
    Closed,
}

impl View for PeerPhase {
    type V = PhaseView;

    open spec fn view(&self) -> PhaseView {
        match self {
            PeerPhase::Unjoined => PhaseView::Unjoined,
            PeerPhase::Joined(name) => PhaseView::Joined(name@),
            PeerPhase::Closed => PhaseView::Closed,
        }
    }
}

/// What the handler decides for one inbound message.
pub struct HandleOutcome {
    /// The peer's next protocol state.
    pub phase: PeerPhase,
    /// A direct reply to the sender, if one is owed.
    pub reply: Option<NetworkMessage>,
    /// Whether the connection is to be torn down.
    pub close: bool,
}

/// The view of an optional reply.
pub open spec fn reply_view(o: Option<NetworkMessage>) -> Option<MsgView> {
    match o {
        Some(m) => Some(m@),
        None => None,
    }
}

/// Everything one handled message decides: the table afterwards, the peer's
/// next state, the reply owed to the sender, and whether to tear down.
#[verifier::ext_equal]
pub struct StepView {
    pub table: Seq<SessionView>,
    pub phase: PhaseView,
    pub reply: Option<MsgView>,
    pub close: bool,
}

/// An ignored message: nothing changes and nothing is sent.
pub open spec fn step_ignore(t: Seq<SessionView>, phase: PhaseView) -> StepView {
    StepView { table: t, phase, reply: None, close: false }
}

/// The transition relation of the relay, one inbound message at a time.
///
/// - `NewSession(name)` while unjoined: create the session with the sender
///   as host, or join it and queue `ClientConnected` for its host; either
///   way reply `Success` and move to joined.
/// - `Data` while joined: fan the payload out to every other member, no
///   reply. `RawData` while joined: the same, but reply `Success`.
/// - `EndSession` while joined: queue `Shutdown` for every member of the
///   session, the requester included, and reply `Success`; the session
///   itself is deleted only as its members disconnect.
/// - `Shutdown` while unjoined or joined: reply `Shutdown`; a joined sender
///   first fans `Shutdown` out to the other members, then leaves the
///   session (deleting it when it was the last member); close either way.
/// - Anything else is ignored.
pub open spec fn spec_handle(
    t: Seq<SessionView>,
    phase: PhaseView,
    from: u64,
    m: MsgView,
) -> StepView {
    match m {
        MsgView::NewSession(name) => match phase {
            PhaseView::Unjoined => {
                let created = !has_session(t, name);
                let joined = spec_join(t, name, from);
                StepView {
                    table: if created {
                        joined
                    } else {
                        spec_notify_host(joined, name, MsgView::ClientConnected)
                    },
                    phase: PhaseView::Joined(name),
                    reply: Some(MsgView::Success),
                    close: false,
                }
            },
            _ => step_ignore(t, phase),
        },
        MsgView::Data(_) => match phase {
            PhaseView::Joined(name) => StepView {
                table: spec_enqueue(t, name, from, m),
                phase,
                reply: None,
                close: false,
            },
            _ => step_ignore(t, phase),
        },
        MsgView::RawData(_) => match phase {
            PhaseView::Joined(name) => StepView {
                table: spec_enqueue(t, name, from, m),
                phase,
                reply: Some(MsgView::Success),
                close: false,
            },
            _ => step_ignore(t, phase),
        },
        MsgView::EndSession => match phase {
            PhaseView::Joined(name) => StepView {
                table: spec_broadcast(t, name, MsgView::Shutdown),
                phase,
                reply: Some(MsgView::Success),
                close: false,
            },
            _ => step_ignore(t, phase),
        },
        MsgView::Shutdown => match phase {
            PhaseView::Unjoined => StepView {
                table: t,
                phase: PhaseView::Closed,
                reply: Some(MsgView::Shutdown),
                close: true,
            },
            PhaseView::Joined(name) => StepView {
                table: spec_remove_member(
                    spec_enqueue(t, name, from, MsgView::Shutdown),
                    name,
                    from,
                ),
                phase: PhaseView::Closed,
                reply: Some(MsgView::Shutdown),
                close: true,
            },
            PhaseView::Closed => step_ignore(t, phase),
        },
        _ => step_ignore(t, phase),
    }
}

/// The transition for a transport-level close: the same fan-out of
/// `Shutdown` to the other members and the same membership cleanup as an
/// explicit `Shutdown` message, but nothing can be sent back to the closed
/// connection itself.
pub open spec fn spec_disconnect(t: Seq<SessionView>, phase: PhaseView, from: u64) -> Seq<
    SessionView,
> {
    match phase {
        PhaseView::Joined(name) => spec_remove_member(
            spec_enqueue(t, name, from, MsgView::Shutdown),
            name,
            from,
        ),
        _ => t,
    }
}

/// Every session-join request from an unjoined peer is acknowledged with
/// exactly one `Success` and nothing else, whether it created the session or
/// joined an existing one.
pub proof fn lemma_join_acknowledged(t: Seq<SessionView>, from: u64, name: Seq<char>)
    ensures
        spec_handle(t, PhaseView::Unjoined, from, MsgView::NewSession(name)).reply == Some(
            MsgView::Success,
        ),
        !spec_handle(t, PhaseView::Unjoined, from, MsgView::NewSession(name)).close,
{
}

/// Interprets one inbound message from the peer `from`, currently in
/// `phase`, against the session table: exactly the transition that
/// [`spec_handle`] gives.
pub fn handle_message(
    table: &mut SessionTable,
    from: u64,
    phase: PeerPhase,
    msg: &NetworkMessage,
) -> (r: HandleOutcome)
    requires
        table_wf(old(table)@),
    ensures
        table_wf(final(table)@),
        ({
            let step = spec_handle(old(table)@, phase@, from, msg@);
            &&& final(table)@ == step.table
            &&& r.phase@ == step.phase
            &&& reply_view(r.reply) == step.reply
            &&& r.close == step.close
        }),
{
    match msg {
        NetworkMessage::NewSession(name) => match phase {
            PeerPhase::Unjoined => {
                let created = table.find_or_create(name, from);
                if !created {
                    table.notify_host(name, &NetworkMessage::ClientConnected);
                }
                HandleOutcome {
                    phase: PeerPhase::Joined(name.clone()),
                    reply: Some(NetworkMessage::Success),
                    close: false,
                }
            },
            _ => HandleOutcome { phase, reply: None, close: false },
        },
        NetworkMessage::Data(_) => match phase {
            PeerPhase::Joined(name) => {
                table.enqueue(&name, from, msg);
                HandleOutcome { phase: PeerPhase::Joined(name), reply: None, close: false }
            },
            _ => HandleOutcome { phase, reply: None, close: false },
        },
        NetworkMessage::RawData(_) => match phase {
            PeerPhase::Joined(name) => {
                table.enqueue(&name, from, msg);
                HandleOutcome {
                    phase: PeerPhase::Joined(name),
                    reply: Some(NetworkMessage::Success),
                    close: false,
                }
            },
            _ => HandleOutcome { phase, reply: None, close: false },
        },
        NetworkMessage::EndSession => match phase {
            PeerPhase::Joined(name) => {
                table.broadcast(&name, &NetworkMessage::Shutdown);
                HandleOutcome {
                    phase: PeerPhase::Joined(name),
                    reply: Some(NetworkMessage::Success),
                    close: false,
                }
            },
            _ => HandleOutcome { phase, reply: None, close: false },
        },
        NetworkMessage::Shutdown => match phase {
            PeerPhase::Unjoined => HandleOutcome {
                phase: PeerPhase::Closed,
                reply: Some(NetworkMessage::Shutdown),
                close: true,
            },
            PeerPhase::Joined(name) => {
                table.enqueue(&name, from, &NetworkMessage::Shutdown);
                let _ = table.remove_member(&name, from);
                HandleOutcome {
                    phase: PeerPhase::Closed,
                    reply: Some(NetworkMessage::Shutdown),
                    close: true,
                }
            },
            PeerPhase::Closed => HandleOutcome {
                phase: PeerPhase::Closed,
                reply: None,
                close: false,
            },
        },
        _ => HandleOutcome { phase, reply: None, close: false },
    }
}

/// Performs the membership cleanup for a connection whose transport closed:
/// exactly [`spec_disconnect`].
pub fn handle_disconnect(table: &mut SessionTable, from: u64, phase: PeerPhase) -> (r: PeerPhase)
    requires
        table_wf(old(table)@),
    ensures
        table_wf(final(table)@),
        final(table)@ == spec_disconnect(old(table)@, phase@, from),
        r@ == PhaseView::Closed,
{
    match phase {
        PeerPhase::Joined(name) => {
            table.enqueue(&name, from, &NetworkMessage::Shutdown);
            let _ = table.remove_member(&name, from);
        },
        _ => {},
    }
    PeerPhase::Closed
}

/// The first peer index holding `tok`, or `-1`.
pub open spec fn peer_idx(ps: Seq<(u64, PhaseView)>, tok: u64) -> int
    decreases ps.len(),
{
    if ps.len() == 0 {
        -1
    } else if ps[0].0 == tok {
        0
    } else {
        let r = peer_idx(ps.drop_first(), tok);
        if r < 0 {
            -1
        } else {
            r + 1
        }
    }
}

/// `peer_idx` is the first index holding the token, or `-1` if none does.
pub proof fn lemma_peer_idx_bounds(ps: Seq<(u64, PhaseView)>, tok: u64)
    ensures
        peer_idx(ps, tok) >= 0 ==> peer_idx(ps, tok) < ps.len() && ps[peer_idx(ps, tok)].0 == tok,
        peer_idx(ps, tok) >= 0 ==> forall|j: int|
            0 <= j < peer_idx(ps, tok) ==> (#[trigger] ps[j]).0 != tok,
        peer_idx(ps, tok) < 0 ==> forall|i: int| 0 <= i < ps.len() ==> (#[trigger] ps[i]).0 != tok,
    decreases ps.len(),
{
    if ps.len() > 0 {
        lemma_peer_idx_bounds(ps.drop_first(), tok);
        assert(forall|j: int| 1 <= j < ps.len() ==> ps[j] == ps.drop_first()[j - 1]);
    }
}

/// A scan that finds `tok` first at `i` agrees with `peer_idx`.
pub proof fn lemma_peer_idx_of_scan(ps: Seq<(u64, PhaseView)>, tok: u64, i: int)
    requires
        0 <= i < ps.len(),
        ps[i].0 == tok,
        forall|j: int| 0 <= j < i ==> (#[trigger] ps[j]).0 != tok,
    ensures
        peer_idx(ps, tok) == i,
    decreases ps.len(),
{
    if i > 0 {
        lemma_peer_idx_of_scan(ps.drop_first(), tok, i - 1);
    }
}

/// One peer's protocol state is coherent with the table: a joined peer is a
/// member of the session it names.
pub open spec fn peer_linked(p: (u64, PhaseView), t: Seq<SessionView>) -> bool {
    match p.1 {
        PhaseView::Joined(name) => has_session(t, name) && session_of(t, name).members.contains(
            p.0,
        ),
        _ => true,
    }
}

/// Every peer's protocol state is coherent with the table.
pub open spec fn peers_linked(ps: Seq<(u64, PhaseView)>, t: Seq<SessionView>) -> bool {
    forall|i: int| 0 <= i < ps.len() ==> peer_linked(#[trigger] ps[i], t)
}

/// One handled message keeps every peer coherent with the table: the acting
/// peer is a member of whatever session its new state names, and no other
/// peer loses its membership.
pub proof fn lemma_handle_keeps_links(
    t: Seq<SessionView>,
    ps: Seq<(u64, PhaseView)>,
    pi: int,
    from: u64,
    m: MsgView,
)
    requires
        table_wf(t),
        peers_linked(ps, t),
        0 <= pi < ps.len(),
        ps[pi].0 == from,
        forall|j: int| 0 <= j < ps.len() && j != pi ==> (#[trigger] ps[j]).0 != from,
    ensures
        ({
            let step = spec_handle(t, ps[pi].1, from, m);
            peers_linked(ps.update(pi, (from, step.phase)), step.table)
        }),
{
    let phase = ps[pi].1;
    let step = spec_handle(t, phase, from, m);
    let ps2 = ps.update(pi, (from, step.phase));
    if step.table == t && step.phase == phase {
        assert(ps2 =~= ps);
        return ;
    }
    match m {
        MsgView::NewSession(name) => {
            if phase is Unjoined {
                let joined = spec_join(t, name, from);
                lemma_join_keeps_memberships(t, name, from);
                if has_session(t, name) {
                    crate::session::lemma_session_idx_bounds(joined, name);
                    assert(step.table.len() == joined.len() && forall|k: int|
                        0 <= k < joined.len() ==> (#[trigger] step.table[k]).name
                            == joined[k].name && step.table[k].members == joined[k].members);
                    lemma_pending_only_keeps_memberships(joined, step.table);
                }
                assert forall|j: int| 0 <= j < ps2.len() implies peer_linked(
                    #[trigger] ps2[j],
                    step.table,
                ) by {
                    if j == pi {
                        assert(session_of(joined, name).members.contains(from));
                    } else {
                        assert(ps2[j] == ps[j]);
                        assert(peer_linked(ps[j], t));
                    }
                }
            } else {
                assert(ps2 =~= ps);
            }
        },
        MsgView::Data(_) | MsgView::RawData(_) | MsgView::EndSession => {
            match phase {
                PhaseView::Joined(name) => {
                    crate::session::lemma_session_idx_bounds(t, name);
                    assert(step.table.len() == t.len() && forall|k: int|
                        0 <= k < t.len() ==> (#[trigger] step.table[k]).name == t[k].name
                            && step.table[k].members == t[k].members);
                    lemma_pending_only_keeps_memberships(t, step.table);
                    assert forall|j: int| 0 <= j < ps2.len() implies peer_linked(
                        #[trigger] ps2[j],
                        step.table,
                    ) by {
                        assert(peer_linked(ps[j], t));
                    }
                },
                _ => {
                    assert(ps2 =~= ps);
                },
            }
        },
        MsgView::Shutdown => {
            match phase {
                PhaseView::Joined(name) => {
                    crate::session::lemma_session_idx_bounds(t, name);
                    let t1 = spec_enqueue(t, name, from, MsgView::Shutdown);
                    assert(t1.len() == t.len() && forall|k: int|
                        0 <= k < t.len() ==> (#[trigger] t1[k]).name == t[k].name
                            && t1[k].members == t[k].members);
                    lemma_pending_only_keeps_memberships(t, t1);
                    assert(table_wf(t1));
                    lemma_remove_keeps_other_memberships(t1, name, from);
                    assert forall|j: int| 0 <= j < ps2.len() implies peer_linked(
                        #[trigger] ps2[j],
                        step.table,
                    ) by {
                        if j != pi {
                            assert(ps2[j] == ps[j]);
                            assert(peer_linked(ps[j], t));
                            assert(ps[j].0 != from);
                            assert(peer_linked(ps[j], t1));
                        }
                    }
                },
                _ => {
                    assert(ps2 =~= ps.update(pi, (from, PhaseView::Closed)));
                },
            }
        },
        _ => {
            assert(ps2 =~= ps);
        },
    }
}

/// Outcome of trying to process one buffered inbound message.
pub enum ProcessOutcome {
    /// One message was handled; the `bool` says whether the connection is to
    /// be torn down.
    Handled(bool),
    /// Nothing to do: no such connection or peer, or only a partial frame
    /// buffered.
    Idle,
    /// The buffered bytes cannot be a message frame; the caller tears the
    /// connection down.
    Corrupt,
}

/// The relay server: the connection registry, the shared session table, and
/// one protocol state per peer connection. Everything it does is driven by
/// calls from outside that hand it accepted connections, bytes read, and
/// byte counts written; it never touches a socket itself.
pub struct RelayServer {
    pub registry: Registry,
    pub table: SessionTable,
    pub peers: Vec<(u64, PeerPhase)>,
}

impl RelayServer {
    /// The model of the peer list.
    pub open spec fn peers_v(&self) -> Seq<(u64, PhaseView)> {
        Seq::new(self.peers@.len(), |i: int| (self.peers@[i].0, self.peers@[i].1@))
    }

    /// A well-formed server: registry and table well formed, at most one
    /// peer entry per token, and no peer token the registry has not issued.
    pub open spec fn wf(&self) -> bool {
        &&& crate::registry::registry_wf(self.registry@)
        &&& table_wf(self.table@)
        &&& forall|i: int, j: int|
            0 <= i < j < self.peers_v().len() ==> self.peers_v()[i].0 != self.peers_v()[j].0
        &&& forall|i: int|
            0 <= i < self.peers_v().len() ==> (#[trigger] self.peers_v()[i]).0
                < self.registry@.next_token
        &&& peers_linked(self.peers_v(), self.table@)
    }

    /// A fresh server with no connections and no sessions.
    pub fn new() -> (r: RelayServer)
        ensures
            r.wf(),
            r.registry@.conns == Seq::<ConnView>::empty(),
            r.registry@.next_token == 0,
            r.table@ == Seq::<SessionView>::empty(),
            r.peers_v() == Seq::<(u64, PhaseView)>::empty(),
    {
        let r = RelayServer {
            registry: Registry::new(),
            table: SessionTable::new(),
            peers: Vec::new(),
        };
        proof {
            assert(r.peers_v() =~= Seq::<(u64, PhaseView)>::empty());
        }
        r
    }

    /// Stages the listening endpoint and hands back its token.
    pub fn add_listener(&mut self) -> (tok: u64)
        requires
            old(self).wf(),
            old(self).registry@.next_token < u64::MAX,
        ensures
            final(self).wf(),
            tok == old(self).registry@.next_token,
            final(self).registry@.next_token == old(self).registry@.next_token + 1,
            final(self).registry@.conns == old(self).registry@.conns.push(
                ConnView {
                    token: tok,
                    kind: ConnKind::Listener,
                    status: RegStatus::Unregistered,
                    interest: InterestSet { readable: true, writable: false },
                    inbuf: Seq::empty(),
                    outbuf: Seq::empty(),
                },
            ),
            final(self).table@ == old(self).table@,
            final(self).peers_v() == old(self).peers_v(),
    {
        let tok = self.registry.stage(
            ConnKind::Listener,
            InterestSet { readable: true, writable: false },
        );
        proof {
            assert(self.peers_v() =~= old(self).peers_v());
        }
        tok
    }

    /// Stages a newly accepted peer connection, interested in reading and
    /// writing, starting unjoined; hands back its fresh token.
    pub fn accept_peer(&mut self) -> (tok: u64)
        requires
            old(self).wf(),
            old(self).registry@.next_token < u64::MAX,
        ensures
            final(self).wf(),
            tok == old(self).registry@.next_token,
            final(self).registry@.next_token == old(self).registry@.next_token + 1,
            final(self).registry@.conns == old(self).registry@.conns.push(
                ConnView {
                    token: tok,
                    kind: ConnKind::Stream,
                    status: RegStatus::Unregistered,
                    interest: InterestSet { readable: true, writable: true },
                    inbuf: Seq::empty(),
                    outbuf: Seq::empty(),
                },
            ),
            final(self).table@ == old(self).table@,
            final(self).peers_v() == old(self).peers_v().push((tok, PhaseView::Unjoined)),
            has_token(final(self).registry@.conns, tok),
    {
        let tok = self.registry.stage(
            ConnKind::Stream,
            InterestSet { readable: true, writable: true },
        );
        self.peers.push((tok, PeerPhase::Unjoined));
        proof {
            assert(self.peers_v() =~~= old(self).peers_v().push((tok, PhaseView::Unjoined)));
            assert(self.wf()) by {
                assert(forall|k: int|
                    0 <= k < old(self).peers_v().len() ==> self.peers_v()[k] == old(self).peers_v()[k]);
            }
        }
        tok
    }

    /// The peer list index of `tok`, if any.
    fn find_peer(&self, tok: u64) -> (r: Option<usize>)
        ensures
            match r {
                Some(i) => peer_idx(self.peers_v(), tok) == i && i < self.peers_v().len(),
                None => peer_idx(self.peers_v(), tok) < 0,
            },
    {
        let mut i: usize = 0;
        while i < self.peers.len()
            invariant
                i <= self.peers@.len(),
                self.peers_v().len() == self.peers@.len(),
                forall|j: int| 0 <= j < i ==> (#[trigger] self.peers_v()[j]).0 != tok,
            decreases self.peers@.len() - i,
        {
            if self.peers[i].0 == tok {
                proof {
                    lemma_peer_idx_of_scan(self.peers_v(), tok, i as int);
                }
                return Some(i);
            }
            i = i + 1;
        }
        proof {
            if peer_idx(self.peers_v(), tok) >= 0 {
                lemma_peer_idx_bounds(self.peers_v(), tok);
            }
        }
        None
    }

    /// Tries to cut one message out of connection `tok`'s inbound buffer and
    /// handle it: the session table and the peer's state take the step that
    /// [`spec_handle`] gives, and the reply, if one is owed, is queued for
    /// writing back to the sender.
    pub fn process_one(&mut self, tok: u64) -> (r: ProcessOutcome)
        requires
            old(self).wf(),
        ensures
            final(self).wf(),
            final(self).registry@.next_token == old(self).registry@.next_token,
            ({
                let cs = old(self).registry@.conns;
                let ci = token_idx(cs, tok);
                let pi = peer_idx(old(self).peers_v(), tok);
                &&& (r is Handled <==> ci >= 0 && pi >= 0 && codec::spec_decode(
                    cs[ci].inbuf,
                ) is Message)
                &&& (r is Corrupt <==> ci >= 0 && pi >= 0 && codec::spec_decode(
                    cs[ci].inbuf,
                ) is Malformed)
            }),
            ({
                let cs = old(self).registry@.conns;
                let ci = token_idx(cs, tok);
                let pi = peer_idx(old(self).peers_v(), tok);
                match r {
                    ProcessOutcome::Idle => final(self).registry@ == old(self).registry@ && final(self).table@ == old(self).table@ && final(self).peers_v() == old(self).peers_v(),
                    ProcessOutcome::Corrupt => final(self).registry@ == old(self).registry@
                        && final(self).table@ == old(self).table@ && final(self).peers_v() == old(self).peers_v(),
                    ProcessOutcome::Handled(close) => ci >= 0 && pi >= 0 && (
                    codec::spec_decode(cs[ci].inbuf) matches codec::SpecDecoded::Message(mv, nn)
                        && {
                        let step = spec_handle(
                            old(self).table@,
                            old(self).peers_v()[pi].1,
                            tok,
                            mv,
                        );
                        let consumed = cs.update(
                            ci,
                            ConnView { inbuf: cs[ci].inbuf.skip(nn), ..cs[ci] },
                        );
                        &&& final(self).table@ == step.table
                        &&& final(self).peers_v() == old(self).peers_v().update(
                            pi,
                            (tok, step.phase),
                        )
                        &&& close == step.close
                        &&& match step.reply {
                            None => final(self).registry@.conns == consumed && final(self).registry@.pending == old(self).registry@.pending,
                            Some(rv) => if cs[ci].status != RegStatus::Deregistered {
                                final(self).registry@.conns == consumed.update(
                                    ci,
                                    ConnView {
                                        outbuf: cs[ci].outbuf + codec::encoding_of(rv),
                                        ..consumed[ci]
                                    },
                                ) && final(self).registry@.pending == old(self).registry@.pending
                            } else {
                                final(self).registry@.conns == consumed && final(self).registry@.pending == old(self).registry@.pending.push(
                                    (tok, codec::encoding_of(rv)),
                                )
                            },
                        }
                    }),
                }
            }),
    {
        let ghost cs = self.registry@.conns;
        let has_conn = match self.registry.status_of(tok) {
            Some(_) => true,
            None => false,
        };
        if !has_conn {
            return ProcessOutcome::Idle;
        }
        let pi = match self.find_peer(tok) {
            Some(i) => i,
            None => {
                return ProcessOutcome::Idle;
            },
        };
        proof {
            crate::registry::lemma_token_idx_bounds(cs, tok);
        }
        match self.registry.take_message(tok) {
            Decoded::NeedMore => ProcessOutcome::Idle,
            Decoded::Malformed => ProcessOutcome::Corrupt,
            Decoded::Message(m, _n) => {
                let ghost consumed_regv = self.registry@;
                let entry = self.peers.remove(pi);
                let outcome = handle_message(&mut self.table, tok, entry.1, &m);
                self.peers.insert(pi, (tok, outcome.phase));
                proof {
                    assert(self.peers_v() =~~= old(self).peers_v().update(
                        pi as int,
                        (tok, spec_handle(
                            old(self).table@,
                            old(self).peers_v()[pi as int].1,
                            tok,
                            m@,
                        ).phase),
                    ));
                }
                match outcome.reply {
                    Some(rep) => {
                        let bytes = rep.serialise();
                        self.registry.queue_write(tok, bytes.as_slice());
                        proof {
                            let ci = token_idx(cs, tok);
                            crate::registry::lemma_token_idx_of_scan(
                                consumed_regv.conns,
                                tok,
                                ci,
                            );
                        }
                    },
                    None => {},
                }
                proof {
                    assert(self.wf()) by {
                        lemma_peer_idx_bounds(old(self).peers_v(), tok);
                        assert(old(self).peers_v()[pi as int].0 == tok);
                        assert(self.peers_v().len() == old(self).peers_v().len());
                        assert(forall|k: int|
                            0 <= k < self.peers_v().len() && k != pi ==> self.peers_v()[k] == old(self).peers_v()[k]);
                        assert(self.peers_v()[pi as int].0 == tok);
                        assert(tok < self.registry@.next_token);
                        lemma_handle_keeps_links(
                            old(self).table@,
                            old(self).peers_v(),
                            pi as int,
                            tok,
                            m@,
                        );
                        assert(self.peers_v() == old(self).peers_v().update(
                            pi as int,
                            (tok, spec_handle(
                                old(self).table@,
                                old(self).peers_v()[pi as int].1,
                                tok,
                                m@,
                            ).phase),
                        ));
                    }
                }
                ProcessOutcome::Handled(outcome.close)
            },
        }
    }

    /// Drains everything queued for peer `tok` in its session into its
    /// connection's outbound buffer: the encodings of exactly the queued
    /// messages, oldest first, are appended there, the peer's queue empties,
    /// and no other queue, membership or connection changes. Nothing happens
    /// unless `tok` is a joined peer with a live connection.
    pub fn deliver_for(&mut self, tok: u64)
        requires
            old(self).wf(),
        ensures
            final(self).wf(),
            final(self).registry@.next_token == old(self).registry@.next_token,
            final(self).registry@.pending == old(self).registry@.pending,
            final(self).peers_v() == old(self).peers_v(),
            ({
                let cs = old(self).registry@.conns;
                let ci = token_idx(cs, tok);
                let pi = peer_idx(old(self).peers_v(), tok);
                let untouched = final(self).table@ == old(self).table@ && final(self).registry@
                    == old(self).registry@;
                if pi >= 0 && ci >= 0 && cs[ci].status != RegStatus::Deregistered {
                    match old(self).peers_v()[pi].1 {
                        PhaseView::Joined(name) => if has_session(old(self).table@, name) {
                            let si = session_idx(old(self).table@, name);
                            let q = queued_for(old(self).table@[si].pending, tok);
                            &&& final(self).table@ == old(self).table@.update(
                                si,
                                SessionView {
                                    pending: crate::session::without_recipient(
                                        old(self).table@[si].pending,
                                        tok,
                                    ),
                                    ..old(self).table@[si]
                                },
                            )
                            &&& final(self).registry@.conns == cs.update(
                                ci,
                                ConnView {
                                    outbuf: cs[ci].outbuf + codec::encodings_of(q),
                                    ..cs[ci]
                                },
                            )
                        } else {
                            untouched
                        },
                        _ => untouched,
                    }
                } else {
                    untouched
                }
            }),
    {
        let ghost cs = self.registry@.conns;
        let ghost t0 = self.table@;
        let live = match self.registry.status_of(tok) {
            Some(RegStatus::Deregistered) => false,
            Some(_) => true,
            None => false,
        };
        if !live {
            return ;
        }
        let pi = match self.find_peer(tok) {
            Some(i) => i,
            None => {
                return ;
            },
        };
        proof {
            crate::registry::lemma_token_idx_bounds(cs, tok);
            lemma_peer_idx_bounds(self.peers_v(), tok);
        }
        let name = match &self.peers[pi].1 {
            PeerPhase::Joined(n) => n.clone(),
            _ => {
                return ;
            },
        };
        if !self.table.contains_session(&name) {
            return ;
        }
        proof {
            crate::session::lemma_session_idx_bounds(t0, name@);
        }
        let ghost si = session_idx(t0, name@);
        let ghost ci = token_idx(cs, tok);
        let ghost q0 = queued_for(t0[si].pending, tok);
        let ghost d: int = 0;
        proof {
            assert(q0.skip(0) =~= q0);
            assert(q0.take(0) =~= Seq::<crate::MsgView>::empty());
            assert(codec::encodings_of(q0.take(0)) == Seq::<u8>::empty());
            assert(cs[ci].outbuf + codec::encodings_of(q0.take(0)) =~= cs[ci].outbuf);
            assert(self.registry@.conns =~~= cs.update(
                ci,
                ConnView {
                    outbuf: cs[ci].outbuf + codec::encodings_of(q0.take(0)),
                    ..cs[ci]
                },
            ));
        }
        let ghost mut dd: int = 0;
        loop
            invariant_except_break
                self.wf(),
                cs == old(self).registry@.conns,
                t0 == old(self).table@,
                table_wf(t0),
                0 <= ci < cs.len(),
                cs[ci].token == tok,
                cs[ci].status != RegStatus::Deregistered,
                0 <= si < t0.len(),
                t0[si].name == name@,
                q0 == queued_for(t0[si].pending, tok),
                0 <= dd <= q0.len(),
                self.peers_v() == old(self).peers_v(),
                self.registry@.next_token == old(self).registry@.next_token,
                self.registry@.pending == old(self).registry@.pending,
                self.table@.len() == t0.len(),
                forall|k: int| 0 <= k < t0.len() && k != si ==> self.table@[k] == t0[k],
                self.table@[si].name == t0[si].name,
                self.table@[si].members == t0[si].members,
                queued_for(self.table@[si].pending, tok) == q0.skip(dd),
                forall|b: u64|
                    b != tok ==> queued_for(self.table@[si].pending, b) == queued_for(
                        t0[si].pending,
                        b,
                    ),
                crate::session::without_recipient(self.table@[si].pending, tok)
                    == crate::session::without_recipient(t0[si].pending, tok),
                self.registry@.conns == cs.update(
                    ci,
                    ConnView {
                        outbuf: cs[ci].outbuf + codec::encodings_of(q0.take(dd)),
                        ..cs[ci]
                    },
                ),
            ensures
                self.wf(),
                self.peers_v() == old(self).peers_v(),
                self.registry@.next_token == old(self).registry@.next_token,
                self.registry@.pending == old(self).registry@.pending,
                self.table@ == t0.update(
                    si,
                    SessionView {
                        pending: crate::session::without_recipient(t0[si].pending, tok),
                        ..t0[si]
                    },
                ),
                self.registry@.conns == cs.update(
                    ci,
                    ConnView { outbuf: cs[ci].outbuf + codec::encodings_of(q0), ..cs[ci] },
                ),
            decreases q0.len() - dd,
        {
            proof {
                assert(forall|k: int|
                    0 <= k < si ==> (#[trigger] self.table@[k]).name != name@) by {
                    assert(forall|k: int| 0 <= k < si ==> self.table@[k] == t0[k]);
                }
                crate::session::lemma_session_idx_of_scan(self.table@, name@, si);
            }
            let ghost cur_t = self.table@;
            let ghost cur_p = self.table@[si].pending;
            match self.table.dequeue_for(&name, tok) {
                None => {
                    proof {
                        assert(q0.skip(dd).len() == 0);
                        assert(dd == q0.len());
                        assert(q0.take(dd) =~= q0);
                        crate::session::lemma_first_for(cur_p, tok);
                        assert(self.table@ == cur_t);
                        crate::session::lemma_without_recipient_absent(cur_p, tok);
                        assert(self.table@ =~~= t0.update(
                            si,
                            SessionView {
                                pending: crate::session::without_recipient(t0[si].pending, tok),
                                ..t0[si]
                            },
                        ));
                    }
                    break ;
                },
                Some(m) => {
                    proof {
                        crate::session::lemma_first_for(cur_p, tok);
                        crate::session::lemma_without_recipient_remove(cur_p, tok);
                        assert(forall|k: int|
                            0 <= k < cur_t.len() && k != si ==> self.table@[k] == cur_t[k]);
                        assert(forall|k: int|
                            0 <= k < si ==> (#[trigger] self.table@[k]).name != name@) by {
                            assert(forall|k: int| 0 <= k < si ==> cur_t[k] == t0[k]);
                        }
                        assert(self.table@[si].name == name@);
                        crate::session::lemma_session_idx_of_scan(self.table@, name@, si);
                        assert(crate::session::session_of(self.table@, name@)
                            == self.table@[si]);
                        assert(m@ == q0.skip(dd)[0]);
                        assert(m@ == q0[dd]);
                        assert(q0.skip(dd).drop_first() =~= q0.skip(dd + 1));
                        assert(self.table@.len() == cur_t.len() && forall|k: int|
                            0 <= k < cur_t.len() ==> (#[trigger] self.table@[k]).name
                                == cur_t[k].name && self.table@[k].members == cur_t[k].members);
                        lemma_pending_only_keeps_memberships(cur_t, self.table@);
                        assert forall|j: int| 0 <= j < self.peers_v().len() implies peer_linked(
                            #[trigger] self.peers_v()[j],
                            self.table@,
                        ) by {
                            assert(peer_linked(self.peers_v()[j], cur_t));
                        }
                    }
                    let ghost mid_regv = self.registry@;
                    let bytes = m.serialise();
                    self.registry.queue_write(tok, bytes.as_slice());
                    proof {
                        crate::registry::lemma_token_idx_of_scan(mid_regv.conns, tok, ci);
                        assert(q0.take(dd + 1) =~= q0.take(dd) + seq![q0[dd]]);
                        codec::lemma_encodings_concat(q0.take(dd), seq![q0[dd]]);
                        codec::lemma_encodings_singleton(q0[dd]);
                        assert((cs[ci].outbuf + codec::encodings_of(q0.take(dd)))
                            + codec::encoding_of(q0[dd]) =~= cs[ci].outbuf + codec::encodings_of(
                            q0.take(dd + 1),
                        ));
                        assert(self.registry@.conns =~~= cs.update(
                            ci,
                            ConnView {
                                outbuf: cs[ci].outbuf + codec::encodings_of(q0.take(dd + 1)),
                                ..cs[ci]
                            },
                        ));
                        dd = dd + 1;
                    }
                },
            }
        }
    }

    /// Tears peer `tok` down after its transport closed or after malformed
    /// bytes: the same membership cleanup as an explicit `Shutdown` — the
    /// session is deleted when this peer was its last member — and the
    /// connection slot is marked deregistered. No reply is sent.
    pub fn disconnect(&mut self, tok: u64)
        requires
            old(self).wf(),
        ensures
            final(self).wf(),
            final(self).registry@.next_token == old(self).registry@.next_token,
            final(self).registry@.pending == old(self).registry@.pending,
            ({
                let cs = old(self).registry@.conns;
                let ci = token_idx(cs, tok);
                let pi = peer_idx(old(self).peers_v(), tok);
                &&& final(self).table@ == (if pi >= 0 {
                    spec_disconnect(old(self).table@, old(self).peers_v()[pi].1, tok)
                } else {
                    old(self).table@
                })
                &&& final(self).peers_v() == (if pi >= 0 {
                    old(self).peers_v().update(pi, (tok, PhaseView::Closed))
                } else {
                    old(self).peers_v()
                })
                &&& final(self).registry@.conns == (if ci >= 0 && cs[ci].status
                    == RegStatus::Registered {
                    cs.update(ci, ConnView { status: RegStatus::Deregistered, ..cs[ci] })
                } else {
                    cs
                })
            }),
    {
        match self.find_peer(tok) {
            Some(pi) => {
                proof {
                    lemma_peer_idx_bounds(self.peers_v(), tok);
                }
                let entry = self.peers.remove(pi);
                let _ph = handle_disconnect(&mut self.table, tok, entry.1);
                self.peers.insert(pi, (tok, PeerPhase::Closed));
                proof {
                    assert(self.peers_v() =~~= old(self).peers_v().update(
                        pi as int,
                        (tok, PhaseView::Closed),
                    ));
                }
            },
            None => {},
        }
        self.registry.mark_deregistered(tok);
        proof {
            assert(self.wf()) by {
                assert(forall|k: int|
                    0 <= k < self.peers_v().len() ==> (#[trigger] self.peers_v()[k]).0 == old(
                        self,
                    ).peers_v()[k].0);
                let ps = old(self).peers_v();
                let pi = peer_idx(ps, tok);
                if pi >= 0 {
                    lemma_peer_idx_bounds(ps, tok);
                    lemma_handle_keeps_links(old(self).table@, ps, pi, tok, MsgView::Shutdown);
                    let step = spec_handle(old(self).table@, ps[pi].1, tok, MsgView::Shutdown);
                    assert(step.table == spec_disconnect(old(self).table@, ps[pi].1, tok));
                    assert(step.phase == PhaseView::Closed) by {
                        match ps[pi].1 {
                            PhaseView::Unjoined => {},
                            PhaseView::Joined(_) => {},
                            PhaseView::Closed => {},
                        }
                    }
                    assert(self.peers_v() == ps.update(pi, (tok, step.phase)));
                }
            }
        }
    }
}

} // verus!