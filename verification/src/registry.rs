//! The connection registry: one slot per connection, indexed by a
//! process-unique token.
//!
//! A slot records the endpoint kind, the registration lifecycle state (which
//! only moves forward), the readiness interests asked for, and the
//! connection's buffered bytes in both directions. Tokens grow monotonically
//! and are never reused. The registry does no socket work itself: callers
//! feed it the bytes they read and take from it the bytes to write, so a
//! short write simply leaves the remainder buffered for the next writable
//! event.

use vstd::prelude::*;

use crate::codec;
use crate::codec::Decoded;

verus! {

/// What kind of endpoint a slot holds.
#[derive(Clone, Copy, Debug, PartialEq, Eq, Structural)]
pub enum ConnKind {
    /// An endpoint that accepts new peer connections.
    Listener,
    /// One peer's bidirectional byte stream.
    Stream,
}

/// Registration lifecycle of a slot; transitions only move forward.
#[derive(Clone, Copy, Debug, PartialEq, Eq, Structural)]
pub enum RegStatus {
    Unregistered,
    Registered,
    Deregistered,
}

/// The readiness interests a connection asks the poller for.
#[derive(Clone, Copy, Debug, PartialEq, Eq, Structural)]
pub struct InterestSet {
    pub readable: bool,
    pub writable: bool,
}

/// One registry slot.
pub struct Connection {
    pub token: u64,
    pub kind: ConnKind,
    pub status: RegStatus,
    pub interest: InterestSet,
    pub inbuf: Vec<u8>,
    pub outbuf: Vec<u8>,
}

/// Mathematical model of one slot.
#[verifier::ext_equal]
pub struct ConnView {
    pub token: u64,
    pub kind: ConnKind,
    pub status: RegStatus,
    pub interest: InterestSet,
    pub inbuf: Seq<u8>,
    pub outbuf: Seq<u8>,
}

impl View for Connection {
    type V = ConnView;

    open spec fn view(&self) -> ConnView {
        ConnView {
            token: self.token,
            kind: self.kind,
            status: self.status,
            interest: self.interest,
            inbuf: self.inbuf@,
            outbuf: self.outbuf@,
        }
    }
}

/// Mathematical model of the registry.
#[verifier::ext_equal]
pub struct RegistryView {
    pub next_token: u64,
    pub conns: Seq<ConnView>,
    pub pending: Seq<(u64, Seq<u8>)>,
}

/// The first slot index holding `tok`, or `-1`.
pub open spec fn token_idx(cs: Seq<ConnView>, tok: u64) -> int
    decreases cs.len(),
{
    if cs.len() == 0 {
        -1
    } else if cs[0].token == tok {
        0
    } else {
        let r = token_idx(cs.drop_first(), tok);
        if r < 0 {
            -1
        } else {
            r + 1
        }
    }
}

/// Whether some slot holds `tok`.
pub open spec fn has_token(cs: Seq<ConnView>, tok: u64) -> bool {
    token_idx(cs, tok) >= 0
}

/// The slot holding `tok`; meaningful only when it exists.
pub open spec fn conn_of(cs: Seq<ConnView>, tok: u64) -> ConnView {
    cs[token_idx(cs, tok)]
}

/// A well-formed registry: at most one slot per token, and every token below
/// the next one to hand out.
pub open spec fn registry_wf(r: RegistryView) -> bool {
    &&& forall|i: int, j: int| 0 <= i < j < r.conns.len() ==> r.conns[i].token != r.conns[j].token
    &&& forall|i: int| 0 <= i < r.conns.len() ==> (#[trigger] r.conns[i]).token < r.next_token
}

/// `token_idx` is the first index holding the token, or `-1` if none does.
pub proof fn lemma_token_idx_bounds(cs: Seq<ConnView>, tok: u64)
    ensures
        token_idx(cs, tok) >= 0 ==> token_idx(cs, tok) < cs.len() && cs[token_idx(cs, tok)].token
            == tok,
        token_idx(cs, tok) >= 0 ==> forall|j: int|
            0 <= j < token_idx(cs, tok) ==> (#[trigger] cs[j]).token != tok,
        token_idx(cs, tok) < 0 ==> forall|i: int|
            0 <= i < cs.len() ==> (#[trigger] cs[i]).token != tok,
    decreases cs.len(),
{
    if cs.len() > 0 {
        lemma_token_idx_bounds(cs.drop_first(), tok);
        assert(forall|j: int| 1 <= j < cs.len() ==> cs[j] == cs.drop_first()[j - 1]);
    }
}

/// A scan that finds `tok` first at `i` agrees with `token_idx`.
pub proof fn lemma_token_idx_of_scan(cs: Seq<ConnView>, tok: u64, i: int)
    requires
        0 <= i < cs.len(),
        cs[i].token == tok,
        forall|j: int| 0 <= j < i ==> (#[trigger] cs[j]).token != tok,
    ensures
        token_idx(cs, tok) == i,
    decreases cs.len(),
{
    if i > 0 {
        lemma_token_idx_of_scan(cs.drop_first(), tok, i - 1);
    }
}

/// The bytes stashed for `tok`, in arrival order, flattened.
pub open spec fn pending_bytes_for(p: Seq<(u64, Seq<u8>)>, tok: u64) -> Seq<u8>
    decreases p.len(),
{
    if p.len() == 0 {
        Seq::empty()
    } else {
        let rest = pending_bytes_for(p.drop_first(), tok);
        if p[0].0 == tok {
            p[0].1 + rest
        } else {
            rest
        }
    }
}

/// The stash without the entries for `tok`, order kept.
pub open spec fn pending_without(p: Seq<(u64, Seq<u8>)>, tok: u64) -> Seq<(u64, Seq<u8>)>
    decreases p.len(),
{
    if p.len() == 0 {
        p
    } else {
        let rest = pending_without(p.drop_first(), tok);
        if p[0].0 == tok {
            rest
        } else {
            seq![p[0]] + rest
        }
    }
}

/// Splitting the stash splits both what is stashed for a token and the rest.
pub proof fn lemma_pending_concat(a: Seq<(u64, Seq<u8>)>, b: Seq<(u64, Seq<u8>)>, tok: u64)
    ensures
        pending_bytes_for(a + b, tok) == pending_bytes_for(a, tok) + pending_bytes_for(b, tok),
        pending_without(a + b, tok) == pending_without(a, tok) + pending_without(b, tok),
    decreases a.len(),
{
    if a.len() == 0 {
        assert(a + b =~= b);
        assert(pending_bytes_for(a, tok) + pending_bytes_for(b, tok) =~= pending_bytes_for(
            b,
            tok,
        ));
        assert(pending_without(a, tok) + pending_without(b, tok) =~= pending_without(b, tok));
    } else {
        assert((a + b).drop_first() =~= a.drop_first() + b);
        lemma_pending_concat(a.drop_first(), b, tok);
        assert(pending_bytes_for(a + b, tok) =~= pending_bytes_for(a, tok) + pending_bytes_for(
            b,
            tok,
        ));
        assert(pending_without(a + b, tok) =~= pending_without(a, tok) + pending_without(b, tok));
    }
}

/// What one stash entry contributes.
pub proof fn lemma_pending_singleton(e: (u64, Seq<u8>), tok: u64)
    ensures
        e.0 == tok ==> pending_bytes_for(seq![e], tok) == e.1 && pending_without(seq![e], tok)
            == Seq::<(u64, Seq<u8>)>::empty(),
        e.0 != tok ==> pending_bytes_for(seq![e], tok) == Seq::<u8>::empty() && pending_without(
            seq![e],
            tok,
        ) == seq![e],
{
    assert(seq![e].drop_first() =~= Seq::<(u64, Seq<u8>)>::empty());
    assert(pending_bytes_for(Seq::<(u64, Seq<u8>)>::empty(), tok) == Seq::<u8>::empty());
    assert(pending_without(Seq::<(u64, Seq<u8>)>::empty(), tok) == Seq::<(u64, Seq<u8>)>::empty());
    if e.0 == tok {
        assert(pending_bytes_for(seq![e], tok) =~= e.1);
    } else {
        assert(pending_without(seq![e], tok) =~= seq![e]);
    }
}

/// The view of the stash.
pub open spec fn pending_pairs_view(p: Seq<(u64, Vec<u8>)>) -> Seq<(u64, Seq<u8>)> {
    Seq::new(p.len(), |i: int| (p[i].0, p[i].1@))
}

/// The connection registry.
pub struct Registry {
    next_token: u64,
    conns: Vec<Connection>,
    pending_data: Vec<(u64, Vec<u8>)>,
}

impl View for Registry {
    type V = RegistryView;

    closed spec fn view(&self) -> RegistryView {
        RegistryView {
            next_token: self.next_token,
            conns: Seq::new(self.conns@.len(), |i: int| self.conns@[i]@),
            pending: pending_pairs_view(self.pending_data@),
        }
    }
}

impl Registry {
    /// An empty registry; tokens start at zero.
    pub fn new() -> (r: Registry)
        ensures
            r@.next_token == 0,
            r@.conns == Seq::<ConnView>::empty(),
            r@.pending == Seq::<(u64, Seq<u8>)>::empty(),
            registry_wf(r@),
    {
        let r = Registry { next_token: 0, conns: Vec::new(), pending_data: Vec::new() };
        proof {
            assert(r@.conns =~= Seq::<ConnView>::empty());
            assert(r@.pending =~= Seq::<(u64, Seq<u8>)>::empty());
        }
        r
    }

    /// The token the next staged connection will get.
    pub fn next_token(&self) -> (t: u64)
        ensures
            t == self@.next_token,
    {
        self.next_token
    }

    /// The slot index of `tok`, if any.
    fn find_idx(&self, tok: u64) -> (r: Option<usize>)
        ensures
            match r {
                Some(i) => token_idx(self@.conns, tok) == i && i < self@.conns.len(),
                None => !has_token(self@.conns, tok),
            },
    {
        let mut i: usize = 0;
        while i < self.conns.len()
            invariant
                i <= self.conns@.len(),
                self@.conns.len() == self.conns@.len(),
                forall|j: int| 0 <= j < i ==> (#[trigger] self@.conns[j]).token != tok,
            decreases self.conns@.len() - i,
        {
            if self.conns[i].token == tok {
                proof {
                    lemma_token_idx_of_scan(self@.conns, tok, i as int);
                }
                return Some(i);
            }
            i = i + 1;
        }
        proof {
            if token_idx(self@.conns, tok) >= 0 {
                lemma_token_idx_bounds(self@.conns, tok);
            }
        }
        None
    }

    /// The lifecycle state of the slot holding `tok`, if any.
    pub fn status_of(&self, tok: u64) -> (r: Option<RegStatus>)
        ensures
            match r {
                Some(s) => has_token(self@.conns, tok) && s == conn_of(self@.conns, tok).status,
                None => !has_token(self@.conns, tok),
            },
    {
        match self.find_idx(tok) {
            Some(i) => Some(self.conns[i].status),
            None => None,
        }
    }

    /// Adds a slot for a new connection of the given kind, not yet registered
    /// with the poller, under a fresh token that is returned. Bytes stashed
    /// in advance for that token stay stashed until [`Registry::absorb_pending`]
    /// moves them into the new slot's outbound buffer.
    pub fn stage(&mut self, kind: ConnKind, interest: InterestSet) -> (tok: u64)
        requires
            registry_wf(old(self)@),
            old(self)@.next_token < u64::MAX,
        ensures
            registry_wf(final(self)@),
            tok == old(self)@.next_token,
            final(self)@.next_token == old(self)@.next_token + 1,
            final(self)@.pending == old(self)@.pending,
            final(self)@.conns == old(self)@.conns.push(
                ConnView {
                    token: tok,
                    kind,
                    status: RegStatus::Unregistered,
                    interest,
                    inbuf: Seq::empty(),
                    outbuf: Seq::empty(),
                },
            ),
            has_token(final(self)@.conns, tok),
    {
        let ghost r0 = self@;
        let tok = self.next_token;
        self.next_token = self.next_token + 1;
        self.conns.push(
            Connection {
                token: tok,
                kind,
                status: RegStatus::Unregistered,
                interest,
                inbuf: Vec::new(),
                outbuf: Vec::new(),
            },
        );
        proof {
            assert(self@.conns =~~= r0.conns.push(
                ConnView {
                    token: tok,
                    kind,
                    status: RegStatus::Unregistered,
                    interest,
                    inbuf: Seq::empty(),
                    outbuf: Seq::empty(),
                },
            ));
            assert(registry_wf(self@)) by {
                assert(forall|k: int| 0 <= k < r0.conns.len() ==> self@.conns[k] == r0.conns[k]);
            }
            lemma_token_idx_of_scan(self@.conns, tok, r0.conns.len() as int);
        }
        tok
    }

    /// Marks the slot registered once the poller accepted it; only an
    /// unregistered slot changes.
    pub fn mark_registered(&mut self, tok: u64)
        requires
            registry_wf(old(self)@),
        ensures
            registry_wf(final(self)@),
            final(self)@.next_token == old(self)@.next_token,
            final(self)@.pending == old(self)@.pending,
            ({
                let i = token_idx(old(self)@.conns, tok);
                if i >= 0 && old(self)@.conns[i].status == RegStatus::Unregistered {
                    final(self)@.conns == old(self)@.conns.update(
                        i,
                        ConnView { status: RegStatus::Registered, ..old(self)@.conns[i] },
                    )
                } else {
                    final(self)@.conns == old(self)@.conns
                }
            }),
    {
        let ghost r0 = self@;
        match self.find_idx(tok) {
            Some(i) => {
                let is_unreg = match self.conns[i].status {
                    RegStatus::Unregistered => true,
                    _ => false,
                };
                if is_unreg {
                    self.conns[i].status = RegStatus::Registered;
                    proof {
                        assert(self@.conns =~~= r0.conns.update(
                            i as int,
                            ConnView { status: RegStatus::Registered, ..r0.conns[i as int] },
                        ));
                        assert(registry_wf(self@)) by {
                            assert(forall|k: int|
                                0 <= k < self@.conns.len() && k != i ==> self@.conns[k]
                                    == r0.conns[k]);
                        }
                    }
                }
            },
            None => {},
        }
    }

    /// Records the interests to ask the poller for at the next registration
    /// or re-registration of `tok`; only a live slot changes.
    pub fn set_interest(&mut self, tok: u64, interest: InterestSet)
        requires
            registry_wf(old(self)@),
        ensures
            registry_wf(final(self)@),
            final(self)@.next_token == old(self)@.next_token,
            final(self)@.pending == old(self)@.pending,
            ({
                let i = token_idx(old(self)@.conns, tok);
                if i >= 0 && old(self)@.conns[i].status != RegStatus::Deregistered {
                    final(self)@.conns == old(self)@.conns.update(
                        i,
                        ConnView { interest, ..old(self)@.conns[i] },
                    )
                } else {
                    final(self)@.conns == old(self)@.conns
                }
            }),
    {
        let ghost r0 = self@;
        match self.find_idx(tok) {
            Some(i) => {
                let live = match self.conns[i].status {
                    RegStatus::Deregistered => false,
                    _ => true,
                };
                if live {
                    self.conns[i].interest = interest;
                    proof {
                        assert(self@.conns =~~= r0.conns.update(
                            i as int,
                            ConnView { interest, ..r0.conns[i as int] },
                        ));
                        assert(registry_wf(self@)) by {
                            assert(forall|k: int|
                                0 <= k < self@.conns.len() && k != i ==> self@.conns[k]
                                    == r0.conns[k]);
                        }
                    }
                }
            },
            None => {},
        }
    }

    /// Marks the slot deregistered; the move is one-way and final. Only a
    /// registered slot changes.
    pub fn mark_deregistered(&mut self, tok: u64)
        requires
            registry_wf(old(self)@),
        ensures
            registry_wf(final(self)@),
            final(self)@.next_token == old(self)@.next_token,
            final(self)@.pending == old(self)@.pending,
            ({
                let i = token_idx(old(self)@.conns, tok);
                if i >= 0 && old(self)@.conns[i].status == RegStatus::Registered {
                    final(self)@.conns == old(self)@.conns.update(
                        i,
                        ConnView { status: RegStatus::Deregistered, ..old(self)@.conns[i] },
                    )
                } else {
                    final(self)@.conns == old(self)@.conns
                }
            }),
    {
        let ghost r0 = self@;
        match self.find_idx(tok) {
            Some(i) => {
                let is_reg = match self.conns[i].status {
                    RegStatus::Registered => true,
                    _ => false,
                };
                if is_reg {
                    self.conns[i].status = RegStatus::Deregistered;
                    proof {
                        assert(self@.conns =~~= r0.conns.update(
                            i as int,
                            ConnView { status: RegStatus::Deregistered, ..r0.conns[i as int] },
                        ));
                        assert(registry_wf(self@)) by {
                            assert(forall|k: int|
                                0 <= k < self@.conns.len() && k != i ==> self@.conns[k]
                                    == r0.conns[k]);
                        }
                    }
                }
            },
            None => {},
        }
    }

    /// Queues `data` to be written on connection `tok`: appended to the
    /// slot's outbound buffer when a live slot exists, else stashed until a
    /// slot with that token absorbs it.
    pub fn queue_write(&mut self, tok: u64, data: &[u8])
        requires
            registry_wf(old(self)@),
        ensures
            registry_wf(final(self)@),
            final(self)@.next_token == old(self)@.next_token,
            ({
                let i = token_idx(old(self)@.conns, tok);
                if i >= 0 && old(self)@.conns[i].status != RegStatus::Deregistered {
                    final(self)@.conns == old(self)@.conns.update(
                        i,
                        ConnView {
                            outbuf: old(self)@.conns[i].outbuf + data@,
                            ..old(self)@.conns[i]
                        },
                    ) && final(self)@.pending == old(self)@.pending
                } else {
                    final(self)@.conns == old(self)@.conns && final(self)@.pending == old(self)@.pending.push((tok, data@))
                }
            }),
    {
        let ghost r0 = self@;
        let mut stash = true;
        match self.find_idx(tok) {
            Some(i) => {
                let live = match self.conns[i].status {
                    RegStatus::Deregistered => false,
                    _ => true,
                };
                if live {
                    stash = false;
                    codec::push_bytes(&mut self.conns[i].outbuf, data);
                    proof {
                        assert(self@.conns =~~= r0.conns.update(
                            i as int,
                            ConnView {
                                outbuf: r0.conns[i as int].outbuf + data@,
                                ..r0.conns[i as int]
                            },
                        ));
                        assert(registry_wf(self@)) by {
                            assert(forall|k: int|
                                0 <= k < self@.conns.len() && k != i ==> self@.conns[k]
                                    == r0.conns[k]);
                        }
                    }
                }
            },
            None => {},
        }
        if stash {
            self.pending_data.push((tok, vstd::slice::slice_to_vec(data)));
            proof {
                assert(self@.pending =~~= r0.pending.push((tok, data@)));
                assert(self@.conns =~~= r0.conns);
            }
        }
    }

    /// Moves every stashed chunk for `tok`, in arrival order, into the
    /// slot's outbound buffer; the rest of the stash keeps its order. Nothing
    /// changes if no slot holds `tok`.
    pub fn absorb_pending(&mut self, tok: u64)
        requires
            registry_wf(old(self)@),
        ensures
            registry_wf(final(self)@),
            final(self)@.next_token == old(self)@.next_token,
            ({
                let i = token_idx(old(self)@.conns, tok);
                if i >= 0 {
                    final(self)@.conns == old(self)@.conns.update(
                        i,
                        ConnView {
                            outbuf: old(self)@.conns[i].outbuf + pending_bytes_for(
                                old(self)@.pending,
                                tok,
                            ),
                            ..old(self)@.conns[i]
                        },
                    ) && final(self)@.pending == pending_without(old(self)@.pending, tok)
                } else {
                    final(self)@.conns == old(self)@.conns && final(self)@.pending == old(self)@.pending
                }
            }),
    {
        let ghost r0 = self@;
        match self.find_idx(tok) {
            Some(i) => {
                let mut drained: Vec<(u64, Vec<u8>)> = Vec::new();
                core::mem::swap(&mut drained, &mut self.pending_data);
                let ghost p0 = r0.pending;
                proof {
                    assert(pending_pairs_view(drained@) =~~= p0);
                    assert(self@.pending =~= Seq::<(u64, Seq<u8>)>::empty());
                    assert(p0.take(0) =~= Seq::<(u64, Seq<u8>)>::empty());
                    assert(r0.conns[i as int].outbuf + pending_bytes_for(p0.take(0), tok)
                        =~= r0.conns[i as int].outbuf);
                    assert(pending_without(p0.take(0), tok) =~= Seq::<(u64, Seq<u8>)>::empty());
                    assert(self@.conns =~~= r0.conns.update(
                        i as int,
                        ConnView {
                            outbuf: r0.conns[i as int].outbuf + pending_bytes_for(
                                p0.take(0),
                                tok,
                            ),
                            ..r0.conns[i as int]
                        },
                    ));
                }
                let total = drained.len();
                let mut k: usize = 0;
                while k < total
                    invariant
                        k <= total,
                        0 <= i < r0.conns.len(),
                        registry_wf(r0),
                        total == p0.len(),
                        pending_pairs_view(drained@) == p0,
                        self@.next_token == r0.next_token,
                        self@.conns.len() == r0.conns.len(),
                        self.conns@.len() == r0.conns.len(),
                        self@.conns == r0.conns.update(
                            i as int,
                            ConnView {
                                outbuf: r0.conns[i as int].outbuf + pending_bytes_for(
                                    p0.take(k as int),
                                    tok,
                                ),
                                ..r0.conns[i as int]
                            },
                        ),
                        self@.pending == pending_without(p0.take(k as int), tok),
                    decreases total - k,
                {
                    let ghost prev = self@;
                    let matches_tok = drained[k].0 == tok;
                    proof {
                        assert(p0[k as int] == (drained@[k as int].0, drained@[k as int].1@));
                        assert(p0.take(k as int + 1) =~= p0.take(k as int) + seq![p0[k as int]]);
                        lemma_pending_concat(p0.take(k as int), seq![p0[k as int]], tok);
                        lemma_pending_singleton(p0[k as int], tok);
                        assert(prev.conns[i as int].outbuf == r0.conns[i as int].outbuf
                            + pending_bytes_for(p0.take(k as int), tok));
                    }
                    if matches_tok {
                        codec::push_bytes(&mut self.conns[i].outbuf, drained[k].1.as_slice());
                        proof {
                            assert(self@.conns =~~= prev.conns.update(
                                i as int,
                                ConnView {
                                    outbuf: prev.conns[i as int].outbuf + drained@[k as int].1@,
                                    ..prev.conns[i as int]
                                },
                            ));
                            assert((r0.conns[i as int].outbuf + pending_bytes_for(
                                p0.take(k as int),
                                tok,
                            )) + p0[k as int].1 =~= r0.conns[i as int].outbuf + pending_bytes_for(
                                p0.take(k as int + 1),
                                tok,
                            ));
                            assert(self@.conns =~~= r0.conns.update(
                                i as int,
                                ConnView {
                                    outbuf: r0.conns[i as int].outbuf + pending_bytes_for(
                                        p0.take(k as int + 1),
                                        tok,
                                    ),
                                    ..r0.conns[i as int]
                                },
                            ));
                            assert(self@.pending =~= pending_without(p0.take(k as int + 1), tok));
                        }
                    } else {
                        let entry_data = vstd::slice::slice_to_vec(drained[k].1.as_slice());
                        self.pending_data.push((drained[k].0, entry_data));
                        proof {
                            assert(self@.pending =~~= pending_without(p0.take(k as int), tok)
                                + seq![p0[k as int]]);
                            assert(pending_without(p0.take(k as int + 1), tok) =~= pending_without(
                                p0.take(k as int),
                                tok,
                            ) + seq![p0[k as int]]);
                            assert(self@.conns =~~= prev.conns);
                        }
                    }
                    k = k + 1;
                }
                proof {
                    assert(p0.take(total as int) =~= p0);
                }
            },
            None => {},
        }
    }

    /// The bytes waiting to be written on connection `tok`; empty when no
    /// slot holds it.
    pub fn peek_outbuf(&self, tok: u64) -> (r: &[u8])
        ensures
            has_token(self@.conns, tok) ==> r@ == conn_of(self@.conns, tok).outbuf,
            !has_token(self@.conns, tok) ==> r@ == Seq::<u8>::empty(),
    {
        match self.find_idx(tok) {
            Some(i) => self.conns[i].outbuf.as_slice(),
            None => {
                let empty: &[u8] = &[];
                proof {
                    assert(empty@ =~= Seq::<u8>::empty());
                }
                empty
            },
        }
    }

    /// Records that the transport accepted the first `n` buffered outbound
    /// bytes of `tok`: exactly those leave the buffer and the rest stays, in
    /// order, for the next writable event — a short write loses and
    /// duplicates nothing.
    pub fn commit_write(&mut self, tok: u64, n: usize)
        requires
            registry_wf(old(self)@),
            has_token(old(self)@.conns, tok),
            n <= conn_of(old(self)@.conns, tok).outbuf.len(),
        ensures
            registry_wf(final(self)@),
            final(self)@.next_token == old(self)@.next_token,
            final(self)@.pending == old(self)@.pending,
            final(self)@.conns == old(self)@.conns.update(
                token_idx(old(self)@.conns, tok),
                ConnView {
                    outbuf: conn_of(old(self)@.conns, tok).outbuf.skip(n as int),
                    ..conn_of(old(self)@.conns, tok)
                },
            ),
    {
        let ghost r0 = self@;
        match self.find_idx(tok) {
            Some(i) => {
                let len = self.conns[i].outbuf.len();
                let rest = vstd::slice::slice_to_vec(
                    vstd::slice::slice_subrange(self.conns[i].outbuf.as_slice(), n, len),
                );
                self.conns[i].outbuf = rest;
                proof {
                    assert(r0.conns[i as int].outbuf.subrange(
                        n as int,
                        r0.conns[i as int].outbuf.len() as int,
                    ) =~= r0.conns[i as int].outbuf.skip(n as int));
                    assert(self@.conns =~~= r0.conns.update(
                        i as int,
                        ConnView {
                            outbuf: r0.conns[i as int].outbuf.skip(n as int),
                            ..r0.conns[i as int]
                        },
                    ));
                    assert(registry_wf(self@)) by {
                        assert(forall|k: int|
                            0 <= k < self@.conns.len() && k != i ==> self@.conns[k]
                                == r0.conns[k]);
                    }
                }
            },
            None => {
                proof {
                    assert(false);
                }
            },
        }
    }

    /// Appends bytes read from the transport to the slot's inbound buffer;
    /// nothing changes if no slot holds `tok`.
    pub fn feed_inbuf(&mut self, tok: u64, data: &[u8])
        requires
            registry_wf(old(self)@),
        ensures
            registry_wf(final(self)@),
            final(self)@.next_token == old(self)@.next_token,
            final(self)@.pending == old(self)@.pending,
            ({
                let i = token_idx(old(self)@.conns, tok);
                if i >= 0 {
                    final(self)@.conns == old(self)@.conns.update(
                        i,
                        ConnView {
                            inbuf: old(self)@.conns[i].inbuf + data@,
                            ..old(self)@.conns[i]
                        },
                    )
                } else {
                    final(self)@.conns == old(self)@.conns
                }
            }),
    {
        let ghost r0 = self@;
        match self.find_idx(tok) {
            Some(i) => {
                codec::push_bytes(&mut self.conns[i].inbuf, data);
                proof {
                    assert(self@.conns =~~= r0.conns.update(
                        i as int,
                        ConnView { inbuf: r0.conns[i as int].inbuf + data@, ..r0.conns[i as int] },
                    ));
                    assert(registry_wf(self@)) by {
                        assert(forall|k: int|
                            0 <= k < self@.conns.len() && k != i ==> self@.conns[k]
                                == r0.conns[k]);
                    }
                }
            },
            None => {},
        }
    }

    /// Tries to cut one whole message out of the front of the slot's inbound
    /// buffer. On success exactly that message's frame is consumed; when the
    /// buffer holds only a prefix of a frame, nothing is consumed and more
    /// bytes are awaited; malformed bytes are reported and left in place for
    /// the caller to tear the connection down.
    pub fn take_message(&mut self, tok: u64) -> (r: Decoded)
        requires
            registry_wf(old(self)@),
            has_token(old(self)@.conns, tok),
        ensures
            registry_wf(final(self)@),
            final(self)@.next_token == old(self)@.next_token,
            final(self)@.pending == old(self)@.pending,
            ({
                let i = token_idx(old(self)@.conns, tok);
                let inb = old(self)@.conns[i].inbuf;
                match r {
                    Decoded::Message(m, n) => codec::spec_decode(inb)
                        == codec::SpecDecoded::Message(m@, n as int) && final(self)@.conns == old(self)@.conns.update(
                        i,
                        ConnView { inbuf: inb.skip(n as int), ..old(self)@.conns[i] },
                    ),
                    Decoded::NeedMore => codec::spec_decode(inb) is NeedMore && final(self)@.conns
                        == old(self)@.conns,
                    Decoded::Malformed => codec::spec_decode(inb) is Malformed && final(self)@.conns == old(self)@.conns,
                }
            }),
    {
        let ghost r0 = self@;
        match self.find_idx(tok) {
            Some(i) => {
                let outcome = codec::decode_prefix(self.conns[i].inbuf.as_slice());
                match outcome {
                    Decoded::Message(m, n) => {
                        let len = self.conns[i].inbuf.len();
                        proof {
                            codec::lemma_spec_decode_len(r0.conns[i as int].inbuf);
                        }
                        let rest = vstd::slice::slice_to_vec(
                            vstd::slice::slice_subrange(self.conns[i].inbuf.as_slice(), n, len),
                        );
                        self.conns[i].inbuf = rest;
                        proof {
                            assert(r0.conns[i as int].inbuf.subrange(
                                n as int,
                                r0.conns[i as int].inbuf.len() as int,
                            ) =~= r0.conns[i as int].inbuf.skip(n as int));
                            assert(self@.conns =~~= r0.conns.update(
                                i as int,
                                ConnView {
                                    inbuf: r0.conns[i as int].inbuf.skip(n as int),
                                    ..r0.conns[i as int]
                                },
                            ));
                            assert(registry_wf(self@)) by {
                                assert(forall|k: int|
                                    0 <= k < self@.conns.len() && k != i ==> self@.conns[k]
                                        == r0.conns[k]);
                            }
                        }
                        Decoded::Message(m, n)
                    },
                    Decoded::NeedMore => Decoded::NeedMore,
                    Decoded::Malformed => Decoded::Malformed,
                }
            },
            None => vstd::pervasive::unreached(),
        }
    }

    /// Drops every deregistered slot and hands back their tokens, in slot
    /// order; the live slots keep their order.
    pub fn sweep_deregistered(&mut self) -> (removed: Vec<u64>)
        requires
            registry_wf(old(self)@),
        ensures
            registry_wf(final(self)@),
            final(self)@.next_token == old(self)@.next_token,
            final(self)@.pending == old(self)@.pending,
            final(self)@.conns == live_conns(old(self)@.conns),
            removed@ == gone_tokens(old(self)@.conns),
    {
        let ghost r0 = self@;
        let mut old_conns: Vec<Connection> = Vec::new();
        core::mem::swap(&mut old_conns, &mut self.conns);
        let mut removed: Vec<u64> = Vec::new();
        let total = old_conns.len();
        let mut k: usize = 0;
        proof {
            assert(Seq::new(
                self.conns@.len(),
                |x: int| self.conns@[x]@,
            ) =~= Seq::<ConnView>::empty());
            assert(r0.conns.take(0) =~= Seq::<ConnView>::empty());
            assert(live_conns(r0.conns.take(0)) =~= Seq::<ConnView>::empty());
            assert(gone_tokens(r0.conns.take(0)) =~= Seq::<u64>::empty());
            assert(Seq::new(old_conns@.len(), |x: int| old_conns@[x]@) =~= r0.conns);
            assert(r0.conns.skip(0) =~= r0.conns);
        }
        while k < total
            invariant
                k <= total,
                registry_wf(r0),
                total == r0.conns.len(),
                old_conns@.len() == total - k,
                Seq::new(old_conns@.len(), |x: int| old_conns@[x]@) == r0.conns.skip(k as int),
                self@.next_token == r0.next_token,
                self@.pending == r0.pending,
                self@.conns == live_conns(r0.conns.take(k as int)),
                removed@ == gone_tokens(r0.conns.take(k as int)),
            decreases total - k,
        {
            let ghost prev = self@;
            let ghost oc_pre = old_conns@;
            let slot = old_conns.remove(0);
            proof {
                assert(forall|x: int|
                    0 <= x < oc_pre.len() ==> (#[trigger] oc_pre[x])@ == r0.conns.skip(
                        k as int,
                    )[x]);
                assert(slot@ == r0.conns.skip(k as int)[0]);
                assert(slot@ == r0.conns[k as int]);
                assert(forall|x: int|
                    0 <= x < old_conns@.len() ==> (#[trigger] old_conns@[x]) == oc_pre[x + 1]);
                assert(Seq::new(old_conns@.len(), |x: int| old_conns@[x]@) =~= r0.conns.skip(
                    k as int + 1,
                ));
                assert(r0.conns.take(k as int + 1) =~= r0.conns.take(k as int) + seq![r0.conns[k
                    as int]]);
                lemma_live_gone_concat(r0.conns.take(k as int), seq![r0.conns[k as int]]);
                lemma_live_gone_singleton(r0.conns[k as int]);
            }
            let is_gone = match slot.status {
                RegStatus::Deregistered => true,
                _ => false,
            };
            if is_gone {
                removed.push(slot.token);
                proof {
                    assert(removed@ =~= gone_tokens(r0.conns.take(k as int + 1)));
                    assert(self@.conns =~= live_conns(r0.conns.take(k as int + 1)));
                }
            } else {
                self.conns.push(slot);
                proof {
                    assert(self@.conns =~~= prev.conns.push(r0.conns[k as int]));
                    assert(self@.conns =~= live_conns(r0.conns.take(k as int + 1)));
                    assert(removed@ =~= gone_tokens(r0.conns.take(k as int + 1)));
                }
            }
            k = k + 1;
        }
        proof {
            assert(r0.conns.take(total as int) =~= r0.conns);
            lemma_live_conns_wf(r0.conns, r0.next_token);
        }
                removed
    }
}

/// The slots that are still live, in order.
pub open spec fn live_conns(cs: Seq<ConnView>) -> Seq<ConnView>
    decreases cs.len(),
{
    if cs.len() == 0 {
        cs
    } else {
        let rest = live_conns(cs.drop_first());
        if cs[0].status == RegStatus::Deregistered {
            rest
        } else {
            seq![cs[0]] + rest
        }
    }
}

/// The tokens of the deregistered slots, in order.
pub open spec fn gone_tokens(cs: Seq<ConnView>) -> Seq<u64>
    decreases cs.len(),
{
    if cs.len() == 0 {
        Seq::empty()
    } else {
        let rest = gone_tokens(cs.drop_first());
        if cs[0].status == RegStatus::Deregistered {
            seq![cs[0].token] + rest
        } else {
            rest
        }
    }
}

/// Splitting the slots splits both the live ones and the dropped tokens.
pub proof fn lemma_live_gone_concat(a: Seq<ConnView>, b: Seq<ConnView>)
    ensures
        live_conns(a + b) == live_conns(a) + live_conns(b),
        gone_tokens(a + b) == gone_tokens(a) + gone_tokens(b),
    decreases a.len(),
{
    if a.len() == 0 {
        assert(a + b =~= b);
        assert(live_conns(a) + live_conns(b) =~= live_conns(b));
        assert(gone_tokens(a) + gone_tokens(b) =~= gone_tokens(b));
    } else {
        assert((a + b).drop_first() =~= a.drop_first() + b);
        lemma_live_gone_concat(a.drop_first(), b);
        assert(live_conns(a + b) =~= live_conns(a) + live_conns(b));
        assert(gone_tokens(a + b) =~= gone_tokens(a) + gone_tokens(b));
    }
}

/// What one slot contributes to the sweep.
pub proof fn lemma_live_gone_singleton(c: ConnView)
    ensures
        c.status == RegStatus::Deregistered ==> live_conns(seq![c]) == Seq::<ConnView>::empty()
            && gone_tokens(seq![c]) == seq![c.token],
        c.status != RegStatus::Deregistered ==> live_conns(seq![c]) == seq![c] && gone_tokens(
            seq![c],
        ) == Seq::<u64>::empty(),
{
    assert(seq![c].drop_first() =~= Seq::<ConnView>::empty());
    assert(live_conns(Seq::<ConnView>::empty()) == Seq::<ConnView>::empty());
    assert(gone_tokens(Seq::<ConnView>::empty()) == Seq::<u64>::empty());
    if c.status == RegStatus::Deregistered {
        assert(gone_tokens(seq![c]) =~= seq![c.token]);
    } else {
        assert(live_conns(seq![c]) =~= seq![c]);
    }
}

/// The sweep keeps the registry well formed: surviving slots come from the
/// original ones.
pub proof fn lemma_live_conns_wf(cs: Seq<ConnView>, next: u64)
    requires
        forall|i: int, j: int| 0 <= i < j < cs.len() ==> cs[i].token != cs[j].token,
        forall|i: int| 0 <= i < cs.len() ==> (#[trigger] cs[i]).token < next,
    ensures
        forall|i: int, j: int|
            0 <= i < j < live_conns(cs).len() ==> live_conns(cs)[i].token != live_conns(
                cs,
            )[j].token,
        forall|i: int| 0 <= i < live_conns(cs).len() ==> (#[trigger] live_conns(cs)[i]).token
            < next,
        live_conns(cs).len() <= cs.len(),
    decreases cs.len(),
{
    if cs.len() > 0 {
        assert(forall|j: int| 1 <= j < cs.len() ==> cs[j] == cs.drop_first()[j - 1]);
        lemma_live_conns_wf(cs.drop_first(), next);
        let rest = live_conns(cs.drop_first());
        if cs[0].status != RegStatus::Deregistered {
            assert(live_conns(cs) == seq![cs[0]] + rest);
            assert forall|i: int, j: int|
                0 <= i < j < live_conns(cs).len() implies live_conns(cs)[i].token != live_conns(
                cs,
            )[j].token by {
                if i == 0 {
                    assert(live_conns(cs)[j] == rest[j - 1]);
                    lemma_live_member(cs.drop_first(), j - 1);
                } else {
                    assert(live_conns(cs)[i] == rest[i - 1]);
                    assert(live_conns(cs)[j] == rest[j - 1]);
                }
            }
        }
    }
}

/// Every surviving slot is one of the original slots.
pub proof fn lemma_live_member(cs: Seq<ConnView>, i: int)
    requires
        0 <= i < live_conns(cs).len(),
    ensures
        exists|w: int| 0 <= w < cs.len() && cs[w] == live_conns(cs)[i],
    decreases cs.len(),
{
    if cs.len() > 0 {
        let rest = live_conns(cs.drop_first());
        if cs[0].status == RegStatus::Deregistered {
            lemma_live_member(cs.drop_first(), i);
            let w = choose|w: int|
                0 <= w < cs.drop_first().len() && cs.drop_first()[w] == live_conns(cs)[i];
            assert(cs[w + 1] == live_conns(cs)[i]);
        } else {
            if i == 0 {
                assert(cs[0] == live_conns(cs)[0]);
            } else {
                lemma_live_member(cs.drop_first(), i - 1);
                let w = choose|w: int|
                    0 <= w < cs.drop_first().len() && cs.drop_first()[w] == rest[i - 1];
                assert(cs[w + 1] == live_conns(cs)[i]);
            }
        }
    }
}

} // verus!
