//! The session table: named groups of peers and their pending deliveries.
//!
//! A session is a non-empty ordered set of member addresses (the first member
//! is the host) together with a queue of `(recipient, message)` pairs waiting
//! to be delivered. The table maps each name to at most one session. Every
//! operation that reads and then writes the table is one method call here, so
//! a caller that serialises its calls (one lock around the table) gets
//! find-or-create and remove-if-last atomically.

use vstd::prelude::*;

use crate::MsgView;
use crate::NetworkMessage;

verus! {

/// No address occurs twice.
pub open spec fn distinct_addrs(s: Seq<u64>) -> bool {
    forall|i: int, j: int| 0 <= i < j < s.len() ==> s[i] != s[j]
}

/// The messages queued for `addr`, oldest first.
pub open spec fn queued_for(pending: Seq<(u64, MsgView)>, addr: u64) -> Seq<MsgView>
    decreases pending.len(),
{
    if pending.len() == 0 {
        Seq::empty()
    } else {
        let rest = queued_for(pending.drop_first(), addr);
        if pending[0].0 == addr {
            seq![pending[0].1] + rest
        } else {
            rest
        }
    }
}

/// The queue entries produced by fanning `m` out from `from` to the other
/// members: one entry per member other than the sender, in member order.
pub open spec fn fanout(members: Seq<u64>, from: u64, m: MsgView) -> Seq<(u64, MsgView)>
    decreases members.len(),
{
    if members.len() == 0 {
        Seq::empty()
    } else if members[0] == from {
        fanout(members.drop_first(), from, m)
    } else {
        seq![(members[0], m)] + fanout(members.drop_first(), from, m)
    }
}

/// Mathematical model of one session.
#[verifier::ext_equal]
pub struct SessionView {
    pub name: Seq<char>,
    pub members: Seq<u64>,
    pub pending: Seq<(u64, MsgView)>,
}

impl SessionView {
    /// A session is well formed when it has at least one member and no
    /// member twice.
    pub open spec fn wf(self) -> bool {
        self.members.len() > 0 && distinct_addrs(self.members)
    }

    /// The first member: the address that created the session.
    pub open spec fn host(self) -> u64 {
        self.members[0]
    }
}

/// The index of the session named `name`, or `-1` if there is none.
pub open spec fn session_idx(t: Seq<SessionView>, name: Seq<char>) -> int
    decreases t.len(),
{
    if t.len() == 0 {
        -1
    } else if t[0].name == name {
        0
    } else {
        let r = session_idx(t.drop_first(), name);
        if r < 0 {
            -1
        } else {
            r + 1
        }
    }
}

/// Whether some session is named `name`.
pub open spec fn has_session(t: Seq<SessionView>, name: Seq<char>) -> bool {
    session_idx(t, name) >= 0
}

/// The session named `name`; meaningful only when it exists.
pub open spec fn session_of(t: Seq<SessionView>, name: Seq<char>) -> SessionView {
    t[session_idx(t, name)]
}

/// A well-formed table: every session well formed (so none is empty) and no
/// name used twice.
pub open spec fn table_wf(t: Seq<SessionView>) -> bool {
    &&& forall|i: int| 0 <= i < t.len() ==> (#[trigger] t[i]).wf()
    &&& forall|i: int, j: int| 0 <= i < j < t.len() ==> t[i].name != t[j].name
}

/// `session_idx` is the first index bearing the name, or `-1` if none does.
pub proof fn lemma_session_idx_bounds(t: Seq<SessionView>, name: Seq<char>)
    ensures
        session_idx(t, name) >= 0 ==> session_idx(t, name) < t.len() && t[session_idx(t, name)].name
            == name,
        session_idx(t, name) >= 0 ==> forall|j: int|
            0 <= j < session_idx(t, name) ==> (#[trigger] t[j]).name != name,
        session_idx(t, name) < 0 ==> forall|i: int|
            0 <= i < t.len() ==> (#[trigger] t[i]).name != name,
    decreases t.len(),
{
    if t.len() > 0 {
        lemma_session_idx_bounds(t.drop_first(), name);
        assert(forall|j: int| 1 <= j < t.len() ==> t[j] == t.drop_first()[j - 1]);
    }
}

/// A scan that finds `x` first at `i` agrees with `addr_idx`.
pub proof fn lemma_addr_idx_of_scan(s: Seq<u64>, x: u64, i: int)
    requires
        0 <= i < s.len(),
        s[i] == x,
        forall|j: int| 0 <= j < i ==> s[j] != x,
    ensures
        addr_idx(s, x) == i,
    decreases s.len(),
{
    if i > 0 {
        assert(forall|j: int| 1 <= j < s.len() ==> s[j] == s.drop_first()[j - 1]);
        lemma_addr_idx_of_scan(s.drop_first(), x, i - 1);
    }
}

/// A scan that finds `name` first at `i` agrees with `session_idx`.
pub proof fn lemma_session_idx_of_scan(t: Seq<SessionView>, name: Seq<char>, i: int)
    requires
        0 <= i < t.len(),
        t[i].name == name,
        forall|j: int| 0 <= j < i ==> (#[trigger] t[j]).name != name,
    ensures
        session_idx(t, name) == i,
    decreases t.len(),
{
    if i > 0 {
        lemma_session_idx_of_scan(t.drop_first(), name, i - 1);
    }
}

/// Joining a session: no change if the address is already a member, else the
/// address is appended.
pub open spec fn join_session(sv: SessionView, addr: u64) -> SessionView {
    if sv.members.contains(addr) {
        sv
    } else {
        SessionView { members: sv.members.push(addr), ..sv }
    }
}

/// The table after a find-or-create for `name` by `addr`: a fresh singleton
/// session if the name was free, else the named session joined by `addr`.
pub open spec fn spec_join(t: Seq<SessionView>, name: Seq<char>, addr: u64) -> Seq<SessionView> {
    let i = session_idx(t, name);
    if i < 0 {
        t.push(SessionView { name, members: seq![addr], pending: Seq::empty() })
    } else {
        t.update(i, join_session(t[i], addr))
    }
}

/// The first index at which `x` occurs among the members, or `-1`.
pub open spec fn addr_idx(s: Seq<u64>, x: u64) -> int
    decreases s.len(),
{
    if s.len() == 0 {
        -1
    } else if s[0] == x {
        0
    } else {
        let r = addr_idx(s.drop_first(), x);
        if r < 0 {
            -1
        } else {
            r + 1
        }
    }
}

/// `addr_idx` is the first occurrence, or `-1` when there is none.
pub proof fn lemma_addr_idx(s: Seq<u64>, x: u64)
    ensures
        addr_idx(s, x) >= 0 ==> addr_idx(s, x) < s.len() && s[addr_idx(s, x)] == x,
        addr_idx(s, x) >= 0 ==> forall|j: int| 0 <= j < addr_idx(s, x) ==> s[j] != x,
        addr_idx(s, x) >= 0 <==> s.contains(x),
    decreases s.len(),
{
    if s.len() > 0 {
        lemma_addr_idx(s.drop_first(), x);
        assert(forall|j: int| 1 <= j < s.len() ==> s[j] == s.drop_first()[j - 1]);
        if s[0] != x && s.contains(x) {
            let w = choose|w: int| 0 <= w < s.len() && s[w] == x;
            assert(s.drop_first()[w - 1] == x);
        }
    }
}

/// The members with the first occurrence of `x` removed; unchanged when `x`
/// is no member.
pub open spec fn remove_addr(s: Seq<u64>, x: u64) -> Seq<u64> {
    if addr_idx(s, x) < 0 {
        s
    } else {
        s.remove(addr_idx(s, x))
    }
}

/// What removing an address does to a distinct member list.
pub proof fn lemma_remove_addr(s: Seq<u64>, x: u64)
    requires
        distinct_addrs(s),
    ensures
        s.contains(x) ==> remove_addr(s, x).len() == s.len() - 1,
        !s.contains(x) ==> remove_addr(s, x) == s,
        distinct_addrs(remove_addr(s, x)),
        !remove_addr(s, x).contains(x),
        forall|y: u64| y != x ==> remove_addr(s, x).contains(y) == s.contains(y),
{
    lemma_addr_idx(s, x);
    if s.contains(x) {
        let i = addr_idx(s, x);
        s.remove_ensures(i);
        let r = s.remove(i);
        assert forall|j: int| 0 <= j < r.len() implies r[j] != x by {
            if j < i {
                assert(r[j] == s[j]);
            } else {
                assert(r[j] == s[j + 1]);
            }
        }
        assert forall|j: int, k: int| 0 <= j < k < r.len() implies r[j] != r[k] by {
            let sj: int = if j < i {
                j
            } else {
                j + 1
            };
            let sk: int = if k < i {
                k
            } else {
                k + 1
            };
            assert(r[j] == s[sj] && r[k] == s[sk]);
        }
        assert forall|y: u64| y != x implies r.contains(y) == s.contains(y) by {
            if r.contains(y) {
                let j = choose|j: int| 0 <= j < r.len() && r[j] == y;
                if j < i {
                    assert(s[j] == y);
                } else {
                    assert(s[j + 1] == y);
                }
            }
            if s.contains(y) {
                let w = choose|w: int| 0 <= w < s.len() && s[w] == y;
                if w < i {
                    assert(r[w] == y);
                } else {
                    assert(r[w - 1] == y);
                }
                assert(r.contains(y));
            }
        }
    }
}

/// The table after `addr` leaves the session named `name`: nothing changes
/// if there is no such session or no such member; the whole session is
/// deleted, atomically with the removal, when `addr` was its last member.
pub open spec fn spec_remove_member(t: Seq<SessionView>, name: Seq<char>, addr: u64) -> Seq<
    SessionView,
> {
    let i = session_idx(t, name);
    if i < 0 {
        t
    } else if !t[i].members.contains(addr) {
        t
    } else if t[i].members.len() == 1 {
        t.remove(i)
    } else {
        t.update(i, SessionView { members: remove_addr(t[i].members, addr), ..t[i] })
    }
}

/// The table after `from` fans `m` out to the other members of the session
/// named `name`; nothing changes if there is no such session.
pub open spec fn spec_enqueue(
    t: Seq<SessionView>,
    name: Seq<char>,
    from: u64,
    m: MsgView,
) -> Seq<SessionView> {
    let i = session_idx(t, name);
    if i < 0 {
        t
    } else {
        t.update(i, SessionView { pending: t[i].pending + fanout(t[i].members, from, m), ..t[i] })
    }
}

/// One queue entry per member, in member order, all carrying `m`.
pub open spec fn all_entries(members: Seq<u64>, m: MsgView) -> Seq<(u64, MsgView)>
    decreases members.len(),
{
    if members.len() == 0 {
        Seq::empty()
    } else {
        seq![(members[0], m)] + all_entries(members.drop_first(), m)
    }
}

/// Splitting a member list splits its broadcast entries.
pub proof fn lemma_all_entries_concat(a: Seq<u64>, b: Seq<u64>, m: MsgView)
    ensures
        all_entries(a + b, m) == all_entries(a, m) + all_entries(b, m),
    decreases a.len(),
{
    if a.len() == 0 {
        assert(a + b =~= b);
        assert(all_entries(a, m) + all_entries(b, m) =~= all_entries(b, m));
    } else {
        assert((a + b).drop_first() =~= a.drop_first() + b);
        lemma_all_entries_concat(a.drop_first(), b, m);
        assert(all_entries(a + b, m) =~= all_entries(a, m) + all_entries(b, m));
    }
}

/// What one member contributes to a broadcast.
pub proof fn lemma_all_entries_singleton(who: u64, m: MsgView)
    ensures
        all_entries(seq![who], m) == seq![(who, m)],
{
    assert(seq![who].drop_first() =~= Seq::<u64>::empty());
    assert(all_entries(Seq::<u64>::empty(), m) == Seq::<(u64, MsgView)>::empty());
    assert(all_entries(seq![who], m) =~= seq![(who, m)]);
}

/// The table after `m` is queued once for every member of the session named
/// `name`, the sender included; nothing changes if there is no such session.
pub open spec fn spec_broadcast(t: Seq<SessionView>, name: Seq<char>, m: MsgView) -> Seq<
    SessionView,
> {
    let i = session_idx(t, name);
    if i < 0 {
        t
    } else {
        t.update(i, SessionView { pending: t[i].pending + all_entries(t[i].members, m), ..t[i] })
    }
}

/// The table after `m` is queued for the host (first member) of the session
/// named `name`; nothing changes if there is no such session.
pub open spec fn spec_notify_host(t: Seq<SessionView>, name: Seq<char>, m: MsgView) -> Seq<
    SessionView,
> {
    let i = session_idx(t, name);
    if i < 0 {
        t
    } else {
        t.update(i, SessionView { pending: t[i].pending.push((t[i].host(), m)), ..t[i] })
    }
}

/// The first queue index destined for `addr`, or `-1`.
pub open spec fn first_for(p: Seq<(u64, MsgView)>, addr: u64) -> int
    decreases p.len(),
{
    if p.len() == 0 {
        -1
    } else if p[0].0 == addr {
        0
    } else {
        let r = first_for(p.drop_first(), addr);
        if r < 0 {
            -1
        } else {
            r + 1
        }
    }
}

/// The table after `addr` takes its oldest pending delivery from the session
/// named `name`; nothing changes if there is no such session or no entry for
/// `addr`.
pub open spec fn spec_dequeue(t: Seq<SessionView>, name: Seq<char>, addr: u64) -> Seq<
    SessionView,
> {
    let i = session_idx(t, name);
    if i < 0 {
        t
    } else {
        let fi = first_for(t[i].pending, addr);
        if fi < 0 {
            t
        } else {
            t.update(i, SessionView { pending: t[i].pending.remove(fi), ..t[i] })
        }
    }
}

/// `first_for` is the first entry for the recipient, and it exists exactly
/// when something is queued for the recipient.
pub proof fn lemma_first_for(p: Seq<(u64, MsgView)>, addr: u64)
    ensures
        first_for(p, addr) >= 0 ==> first_for(p, addr) < p.len() && p[first_for(p, addr)].0
            == addr,
        first_for(p, addr) >= 0 ==> forall|j: int|
            0 <= j < first_for(p, addr) ==> (#[trigger] p[j]).0 != addr,
        first_for(p, addr) < 0 ==> forall|j: int| 0 <= j < p.len() ==> (#[trigger] p[j]).0 != addr,
        first_for(p, addr) >= 0 <==> queued_for(p, addr).len() > 0,
    decreases p.len(),
{
    if p.len() > 0 {
        lemma_first_for(p.drop_first(), addr);
        assert(forall|j: int| 1 <= j < p.len() ==> p[j] == p.drop_first()[j - 1]);
    }
}

/// A scan that finds an entry for `addr` first at `i` agrees with
/// `first_for`.
pub proof fn lemma_first_for_of_scan(p: Seq<(u64, MsgView)>, addr: u64, i: int)
    requires
        0 <= i < p.len(),
        p[i].0 == addr,
        forall|j: int| 0 <= j < i ==> (#[trigger] p[j]).0 != addr,
    ensures
        first_for(p, addr) == i,
    decreases p.len(),
{
    if i > 0 {
        assert(forall|j: int| 1 <= j < p.len() ==> p[j] == p.drop_first()[j - 1]);
        lemma_first_for_of_scan(p.drop_first(), addr, i - 1);
    }
}

/// Splitting a queue splits what is queued for every recipient.
pub proof fn lemma_queued_for_concat(a: Seq<(u64, MsgView)>, b: Seq<(u64, MsgView)>, addr: u64)
    ensures
        queued_for(a + b, addr) == queued_for(a, addr) + queued_for(b, addr),
    decreases a.len(),
{
    if a.len() == 0 {
        assert(a + b =~= b);
        assert(queued_for(a, addr) + queued_for(b, addr) =~= queued_for(b, addr));
    } else {
        assert((a + b).drop_first() =~= a.drop_first() + b);
        lemma_queued_for_concat(a.drop_first(), b, addr);
        assert(queued_for(a + b, addr) =~= queued_for(a, addr) + queued_for(b, addr));
    }
}

/// What one queue entry contributes to each recipient's queue.
pub proof fn lemma_queued_for_singleton(e: (u64, MsgView), addr: u64)
    ensures
        e.0 == addr ==> queued_for(seq![e], addr) == seq![e.1],
        e.0 != addr ==> queued_for(seq![e], addr) == Seq::<MsgView>::empty(),
{
    assert(seq![e].drop_first() =~= Seq::<(u64, MsgView)>::empty());
    assert(queued_for(Seq::<(u64, MsgView)>::empty(), addr) == Seq::<MsgView>::empty());
    if e.0 == addr {
        assert(queued_for(seq![e], addr) =~= seq![e.1]);
    }
}

/// Fanning out from `from` queues the message once for every other member
/// and nothing for the sender or a non-member.
pub proof fn lemma_queued_for_fanout(members: Seq<u64>, from: u64, m: MsgView, addr: u64)
    requires
        distinct_addrs(members),
    ensures
        addr != from && members.contains(addr) ==> queued_for(fanout(members, from, m), addr)
            == seq![m],
        addr == from ==> queued_for(fanout(members, from, m), addr) == Seq::<MsgView>::empty(),
        !members.contains(addr) ==> queued_for(fanout(members, from, m), addr) == Seq::<
            MsgView,
        >::empty(),
    decreases members.len(),
{
    if members.len() > 0 {
        assert(forall|j: int|
            1 <= j < members.len() ==> members[j] == members.drop_first()[j - 1]);
        lemma_queued_for_fanout(members.drop_first(), from, m, addr);
        if members.contains(addr) && members[0] != addr {
            let w = choose|w: int| 0 <= w < members.len() && members[w] == addr;
            assert(members.drop_first()[w - 1] == addr);
        }
        if members[0] != from {
            let e = (members[0], m);
            lemma_queued_for_singleton(e, addr);
            lemma_queued_for_concat(seq![e], fanout(members.drop_first(), from, m), addr);
            if members[0] == addr {
                assert(!members.drop_first().contains(addr)) by {
                    if members.drop_first().contains(addr) {
                        let w = choose|w: int|
                            0 <= w < members.drop_first().len() && members.drop_first()[w]
                                == addr;
                        assert(members[w + 1] == addr);
                    }
                }
                assert(queued_for(fanout(members, from, m), addr) =~= seq![m]);
            }
        }
    }
}

/// Splitting a member list splits its fan-out.
pub proof fn lemma_fanout_concat(a: Seq<u64>, b: Seq<u64>, from: u64, m: MsgView)
    ensures
        fanout(a + b, from, m) == fanout(a, from, m) + fanout(b, from, m),
    decreases a.len(),
{
    if a.len() == 0 {
        assert(a + b =~= b);
        assert(fanout(a, from, m) + fanout(b, from, m) =~= fanout(b, from, m));
    } else {
        assert((a + b).drop_first() =~= a.drop_first() + b);
        lemma_fanout_concat(a.drop_first(), b, from, m);
        assert(fanout(a + b, from, m) =~= fanout(a, from, m) + fanout(b, from, m));
    }
}

/// What one member contributes to a fan-out.
pub proof fn lemma_fanout_singleton(who: u64, from: u64, m: MsgView)
    ensures
        who == from ==> fanout(seq![who], from, m) == Seq::<(u64, MsgView)>::empty(),
        who != from ==> fanout(seq![who], from, m) == seq![(who, m)],
{
    assert(seq![who].drop_first() =~= Seq::<u64>::empty());
    assert(fanout(Seq::<u64>::empty(), from, m) == Seq::<(u64, MsgView)>::empty());
    if who != from {
        assert(fanout(seq![who], from, m) =~= seq![(who, m)]);
    }
}

/// The queue without the entries for `addr`, order kept.
pub open spec fn without_recipient(p: Seq<(u64, MsgView)>, addr: u64) -> Seq<(u64, MsgView)>
    decreases p.len(),
{
    if p.len() == 0 {
        p
    } else {
        let rest = without_recipient(p.drop_first(), addr);
        if p[0].0 == addr {
            rest
        } else {
            seq![p[0]] + rest
        }
    }
}

/// A queue with nothing for `addr` is untouched by dropping `addr`'s
/// entries.
pub proof fn lemma_without_recipient_absent(p: Seq<(u64, MsgView)>, addr: u64)
    requires
        queued_for(p, addr).len() == 0,
    ensures
        without_recipient(p, addr) == p,
    decreases p.len(),
{
    if p.len() > 0 {
        lemma_without_recipient_absent(p.drop_first(), addr);
        assert(without_recipient(p, addr) =~= p);
    }
}

/// Taking the first entry for `addr` leaves the other entries — and so the
/// queue with `addr`'s entries dropped — unchanged.
pub proof fn lemma_without_recipient_remove(p: Seq<(u64, MsgView)>, addr: u64)
    requires
        first_for(p, addr) >= 0,
    ensures
        without_recipient(p.remove(first_for(p, addr)), addr) == without_recipient(p, addr),
    decreases p.len(),
{
    lemma_first_for(p, addr);
    let fi = first_for(p, addr);
    if fi == 0 {
        assert(p.remove(0) =~= p.drop_first());
    } else {
        assert(forall|j: int| 1 <= j < p.len() ==> p[j] == p.drop_first()[j - 1]);
        assert(first_for(p.drop_first(), addr) == fi - 1);
        lemma_without_recipient_remove(p.drop_first(), addr);
        assert(p.remove(fi) =~= seq![p[0]] + p.drop_first().remove(fi - 1));
        assert(seq![p[0]].drop_first() =~= Seq::<(u64, MsgView)>::empty());
        assert((seq![p[0]] + p.drop_first().remove(fi - 1)).drop_first() =~= p.drop_first().remove(
            fi - 1,
        ));
        assert(without_recipient(p.remove(fi), addr) =~= without_recipient(p, addr));
    }
}

/// Taking the first entry for a recipient takes the head of that recipient's
/// queue and nothing from anyone else's.
pub proof fn lemma_dequeue_first(p: Seq<(u64, MsgView)>, addr: u64)
    requires
        first_for(p, addr) >= 0,
    ensures
        queued_for(p, addr).len() > 0,
        p[first_for(p, addr)].1 == queued_for(p, addr)[0],
        queued_for(p.remove(first_for(p, addr)), addr) == queued_for(p, addr).drop_first(),
        forall|b: u64|
            b != addr ==> queued_for(p.remove(first_for(p, addr)), b) == queued_for(p, b),
    decreases p.len(),
{
    lemma_first_for(p, addr);
    let fi = first_for(p, addr);
    if fi == 0 {
        assert(p.remove(0) =~= p.drop_first());
        assert((seq![p[0].1] + queued_for(p.drop_first(), addr)).drop_first() =~= queued_for(
            p.drop_first(),
            addr,
        ));
    } else {
        assert(forall|j: int| 1 <= j < p.len() ==> p[j] == p.drop_first()[j - 1]);
        assert(first_for(p.drop_first(), addr) == fi - 1);
        lemma_dequeue_first(p.drop_first(), addr);
        assert(p.remove(fi) =~= seq![p[0]] + p.drop_first().remove(fi - 1));
        lemma_queued_for_singleton(p[0], addr);
        lemma_queued_for_concat(seq![p[0]], p.drop_first().remove(fi - 1), addr);
        assert(queued_for(p.remove(fi), addr) =~= queued_for(p, addr).drop_first());
        assert forall|b: u64| b != addr implies queued_for(p.remove(fi), b) == queued_for(
            p,
            b,
        ) by {
            lemma_queued_for_singleton(p[0], b);
            lemma_queued_for_concat(seq![p[0]], p.drop_first().remove(fi - 1), b);
            assert(queued_for(
                p.drop_first().remove(first_for(p.drop_first(), addr)),
                b,
            ) == queued_for(p.drop_first(), b));
            assert(Seq::<MsgView>::empty() + queued_for(p.drop_first(), b) =~= queued_for(
                p.drop_first(),
                b,
            ));
            assert(queued_for(p.remove(fi), b) =~= queued_for(p, b));
        }
    }
}

/// Updating a session without renaming it moves no session's index.
pub proof fn lemma_session_idx_update_same_name(t: Seq<SessionView>, i: int, sv2: SessionView)
    requires
        0 <= i < t.len(),
        sv2.name == t[i].name,
    ensures
        forall|nm: Seq<char>|
            #[trigger] session_idx(t.update(i, sv2), nm) == session_idx(t, nm),
    decreases t.len(),
{
    assert forall|nm: Seq<char>|
        #[trigger] session_idx(t.update(i, sv2), nm) == session_idx(t, nm) by {
        lemma_session_idx_update_same_name_one(t, i, sv2, nm);
    }
}

/// The same, for one name.
proof fn lemma_session_idx_update_same_name_one(
    t: Seq<SessionView>,
    i: int,
    sv2: SessionView,
    nm: Seq<char>,
)
    requires
        0 <= i < t.len(),
        sv2.name == t[i].name,
    ensures
        session_idx(t.update(i, sv2), nm) == session_idx(t, nm),
    decreases t.len(),
{
    let t2 = t.update(i, sv2);
    if i == 0 {
        if t[0].name != nm {
            assert(t2.drop_first() =~= t.drop_first());
        }
    } else {
        assert(t2.drop_first() =~= t.drop_first().update(i - 1, sv2));
        lemma_session_idx_update_same_name_one(t.drop_first(), i - 1, sv2, nm);
    }
}

/// A session already in the table keeps its index when another is appended.
pub proof fn lemma_session_idx_push(t: Seq<SessionView>, sv2: SessionView, nm: Seq<char>)
    requires
        has_session(t, nm),
    ensures
        session_idx(t.push(sv2), nm) == session_idx(t, nm),
{
    lemma_session_idx_bounds(t, nm);
    let i = session_idx(t, nm);
    assert(forall|j: int| 0 <= j < t.len() ==> t.push(sv2)[j] == t[j]);
    lemma_session_idx_of_scan(t.push(sv2), nm, i);
}

/// Deleting one session leaves every other session present and unchanged.
pub proof fn lemma_session_remove_other(t: Seq<SessionView>, i: int, nm: Seq<char>)
    requires
        table_wf(t),
        0 <= i < t.len(),
        has_session(t, nm),
        t[i].name != nm,
    ensures
        has_session(t.remove(i), nm),
        session_of(t.remove(i), nm) == session_of(t, nm),
{
    lemma_session_idx_bounds(t, nm);
    let k = session_idx(t, nm);
    t.remove_ensures(i);
    let r = t.remove(i);
    if k < i {
        assert(r[k] == t[k]);
        assert(forall|j: int| 0 <= j < k ==> r[j] == t[j]);
        lemma_session_idx_of_scan(r, nm, k);
    } else {
        assert(k != i);
        assert(r[k - 1] == t[k]);
        assert(forall|j: int| 0 <= j < i ==> r[j] == t[j]);
        assert(forall|j: int| i <= j < k - 1 ==> r[j] == t[j + 1]);
        lemma_session_idx_of_scan(r, nm, k - 1);
    }
}

/// What a join does to memberships: the joiner belongs to the named session
/// afterwards, and nobody loses a membership anywhere.
pub proof fn lemma_join_keeps_memberships(t: Seq<SessionView>, name: Seq<char>, addr: u64)
    requires
        table_wf(t),
    ensures
        has_session(spec_join(t, name, addr), name),
        session_of(spec_join(t, name, addr), name).members.contains(addr),
        forall|nm: Seq<char>, y: u64|
            has_session(t, nm) && #[trigger] session_of(t, nm).members.contains(y) ==> has_session(
                spec_join(t, name, addr),
                nm,
            ) && session_of(spec_join(t, name, addr), nm).members.contains(y),
{
    lemma_session_idx_bounds(t, name);
    let i = session_idx(t, name);
    let t2 = spec_join(t, name, addr);
    if i < 0 {
        let fresh = SessionView { name, members: seq![addr], pending: Seq::empty() };
        assert(t2 == t.push(fresh));
        assert(t2[t.len() as int] == fresh);
        lemma_session_idx_of_scan(t2, name, t.len() as int);
        assert(fresh.members.contains(addr)) by {
            assert(fresh.members[0] == addr);
        }
        assert forall|nm: Seq<char>, y: u64|
            has_session(t, nm) && #[trigger] session_of(t, nm).members.contains(y) implies
            has_session(t2, nm) && session_of(t2, nm).members.contains(y) by {
            lemma_session_idx_push(t, fresh, nm);
            lemma_session_idx_bounds(t, nm);
            assert(t2[session_idx(t, nm)] == t[session_idx(t, nm)]);
        }
    } else {
        let sv2 = join_session(t[i], addr);
        assert(t2 == t.update(i, sv2));
        lemma_session_idx_update_same_name(t, i, sv2);
        assert(sv2.members.contains(addr)) by {
            if t[i].members.contains(addr) {
            } else {
                assert(sv2.members == t[i].members.push(addr));
                assert(sv2.members[t[i].members.len() as int] == addr);
            }
        }
        assert(session_of(t2, name) == sv2);
        assert forall|nm: Seq<char>, y: u64|
            has_session(t, nm) && #[trigger] session_of(t, nm).members.contains(y) implies
            has_session(t2, nm) && session_of(t2, nm).members.contains(y) by {
            lemma_session_idx_bounds(t, nm);
            let k = session_idx(t, nm);
            if k == i {
                if !t[i].members.contains(addr) {
                    let w = choose|w: int| 0 <= w < t[i].members.len() && t[i].members[w] == y;
                    assert(sv2.members[w] == y);
                }
            } else {
                assert(t2[k] == t[k]);
            }
        }
    }
}

/// Operations that only touch delivery queues leave every index and every
/// membership as they were.
pub proof fn lemma_pending_only_keeps_memberships(t: Seq<SessionView>, t2: Seq<SessionView>)
    requires
        t2.len() == t.len(),
        forall|k: int|
            0 <= k < t.len() ==> (#[trigger] t2[k]).name == t[k].name && t2[k].members
                == t[k].members,
    ensures
        forall|nm: Seq<char>| #[trigger] session_idx(t2, nm) == session_idx(t, nm),
        forall|nm: Seq<char>, y: u64|
            has_session(t, nm) && #[trigger] session_of(t, nm).members.contains(y) ==> has_session(
                t2,
                nm,
            ) && session_of(t2, nm).members.contains(y),
{
    assert forall|nm: Seq<char>| #[trigger] session_idx(t2, nm) == session_idx(t, nm) by {
        lemma_pending_only_idx_one(t, t2, nm);
    }
    assert forall|nm: Seq<char>, y: u64|
        has_session(t, nm) && #[trigger] session_of(t, nm).members.contains(y) implies
        has_session(t2, nm) && session_of(t2, nm).members.contains(y) by {
        lemma_session_idx_bounds(t, nm);
    }
}

/// The same index stability, for one name.
proof fn lemma_pending_only_idx_one(t: Seq<SessionView>, t2: Seq<SessionView>, nm: Seq<char>)
    requires
        t2.len() == t.len(),
        forall|k: int|
            0 <= k < t.len() ==> (#[trigger] t2[k]).name == t[k].name && t2[k].members
                == t[k].members,
    ensures
        session_idx(t2, nm) == session_idx(t, nm),
    decreases t.len(),
{
    if t.len() > 0 {
        assert(forall|k: int|
            0 <= k < t.drop_first().len() ==> t.drop_first()[k] == t[k + 1] && t2.drop_first()[k]
                == t2[k + 1]);
        lemma_pending_only_idx_one(t.drop_first(), t2.drop_first(), nm);
    }
}

/// What a member's departure does to the other memberships: everyone else
/// keeps theirs, wherever they are.
pub proof fn lemma_remove_keeps_other_memberships(t: Seq<SessionView>, name: Seq<char>, addr: u64)
    requires
        table_wf(t),
    ensures
        forall|nm: Seq<char>, y: u64|
            has_session(t, nm) && #[trigger] session_of(t, nm).members.contains(y) && !(nm == name
                && y == addr) ==> has_session(spec_remove_member(t, name, addr), nm) && session_of(
                spec_remove_member(t, name, addr),
                nm,
            ).members.contains(y),
{
    lemma_session_idx_bounds(t, name);
    let i = session_idx(t, name);
    let t2 = spec_remove_member(t, name, addr);
    if i >= 0 && t[i].members.contains(addr) {
        if t[i].members.len() == 1 {
            assert(t2 == t.remove(i));
            assert forall|nm: Seq<char>, y: u64|
                has_session(t, nm) && #[trigger] session_of(t, nm).members.contains(y) && !(nm
                    == name && y == addr) implies has_session(t2, nm) && session_of(
                t2,
                nm,
            ).members.contains(y) by {
                if nm == name {
                    lemma_session_idx_bounds(t, nm);
                    let w = choose|w: int| 0 <= w < t[i].members.len() && t[i].members[w] == y;
                    let v = choose|v: int|
                        0 <= v < t[i].members.len() && t[i].members[v] == addr;
                    assert(w == 0 && v == 0);
                    assert(false);
                } else {
                    lemma_session_idx_bounds(t, nm);
                    assert(t[i].name == name);
                    lemma_session_remove_other(t, i, nm);
                }
            }
        } else {
            let sv2 = SessionView { members: remove_addr(t[i].members, addr), ..t[i] };
            assert(t2 == t.update(i, sv2));
            lemma_session_idx_update_same_name(t, i, sv2);
            lemma_remove_addr(t[i].members, addr);
            assert forall|nm: Seq<char>, y: u64|
                has_session(t, nm) && #[trigger] session_of(t, nm).members.contains(y) && !(nm
                    == name && y == addr) implies has_session(t2, nm) && session_of(
                t2,
                nm,
            ).members.contains(y) by {
                lemma_session_idx_bounds(t, nm);
                let k = session_idx(t, nm);
                if k == i {
                    assert(nm == name);
                    assert(y != addr);
                    assert(sv2.members.contains(y));
                    assert(session_of(t2, nm) == sv2);
                } else {
                    assert(t2[k] == t[k]);
                }
            }
        }
    }
}

/// The table after a run of join requests for `name`, one per address, in
/// order.
pub open spec fn join_all(t: Seq<SessionView>, name: Seq<char>, addrs: Seq<u64>) -> Seq<
    SessionView,
>
    decreases addrs.len(),
{
    if addrs.len() == 0 {
        t
    } else {
        join_all(spec_join(t, name, addrs[0]), name, addrs.drop_first())
    }
}

/// Joins by addresses that are not yet members extend the member list in
/// arrival order and touch nothing else.
proof fn lemma_join_all_existing(t: Seq<SessionView>, name: Seq<char>, addrs: Seq<u64>)
    requires
        table_wf(t),
        has_session(t, name),
        distinct_addrs(addrs),
        forall|k: int|
            0 <= k < addrs.len() ==> !session_of(t, name).members.contains(#[trigger] addrs[k]),
    ensures
        table_wf(join_all(t, name, addrs)),
        join_all(t, name, addrs).len() == t.len(),
        session_idx(join_all(t, name, addrs), name) == session_idx(t, name),
        session_of(join_all(t, name, addrs), name).name == session_of(t, name).name,
        session_of(join_all(t, name, addrs), name).members == session_of(t, name).members + addrs,
        session_of(join_all(t, name, addrs), name).pending == session_of(t, name).pending,
        forall|k: int|
            0 <= k < t.len() && k != session_idx(t, name) ==> join_all(t, name, addrs)[k] == t[k],
    decreases addrs.len(),
{
    lemma_session_idx_bounds(t, name);
    let i = session_idx(t, name);
    let sv = t[i];
    if addrs.len() == 0 {
        assert(sv.members + addrs =~= sv.members);
    } else {
        let a = addrs[0];
        assert(!sv.members.contains(a));
        let t1 = spec_join(t, name, a);
        assert(t1 == t.update(i, SessionView { members: sv.members.push(a), ..sv }));
        assert(t1[i].wf()) by {
            assert(forall|k: int| 0 <= k < sv.members.len() ==> sv.members[k] != a);
        }
        assert(table_wf(t1));
        lemma_session_idx_of_scan(t1, name, i);
        assert(forall|j: int| 1 <= j < addrs.len() ==> addrs[j] == addrs.drop_first()[j - 1]);
        assert(forall|k: int|
            0 <= k < addrs.drop_first().len() ==> !session_of(t1, name).members.contains(
                #[trigger] addrs.drop_first()[k],
            )) by {
            assert(forall|k: int|
                0 <= k < addrs.drop_first().len() ==> addrs.drop_first()[k] == addrs[k + 1]);
            assert forall|k: int|
                0 <= k < addrs.drop_first().len() implies !sv.members.push(a).contains(
                #[trigger] addrs.drop_first()[k],
            ) by {
                let y = addrs.drop_first()[k];
                assert(y == addrs[k + 1]);
                assert(y != a);
                assert(!sv.members.contains(y));
                if sv.members.push(a).contains(y) {
                    let w = choose|w: int|
                        0 <= w < sv.members.push(a).len() && sv.members.push(a)[w] == y;
                    if w < sv.members.len() {
                        assert(sv.members[w] == y);
                    }
                }
            }
        }
        lemma_join_all_existing(t1, name, addrs.drop_first());
        assert(sv.members + addrs =~= (sv.members.push(a)) + addrs.drop_first());
        assert(join_all(t, name, addrs) == join_all(t1, name, addrs.drop_first()));
        assert(forall|k: int|
            0 <= k < t.len() && k != i ==> join_all(t1, name, addrs.drop_first())[k] == t1[k]);
        assert(forall|k: int| 0 <= k < t.len() && k != i ==> t1[k] == t[k]);
    }
}

/// Atomic session creation: a run of join requests for one fresh name from
/// distinct addresses, in any arrival order, leaves exactly one session with
/// that name (well-formedness admits no second). Its host is the first
/// requester, its members are exactly the requesters in arrival order, and
/// its delivery queue starts empty. Every other session is untouched.
pub proof fn lemma_session_atomic_creation(t: Seq<SessionView>, name: Seq<char>, addrs: Seq<u64>)
    requires
        table_wf(t),
        !has_session(t, name),
        addrs.len() > 0,
        distinct_addrs(addrs),
    ensures
        table_wf(join_all(t, name, addrs)),
        has_session(join_all(t, name, addrs), name),
        session_of(join_all(t, name, addrs), name).members == addrs,
        session_of(join_all(t, name, addrs), name).host() == addrs[0],
        session_of(join_all(t, name, addrs), name).pending == Seq::<(u64, MsgView)>::empty(),
        join_all(t, name, addrs).len() == t.len() + 1,
        forall|k: int| 0 <= k < t.len() ==> join_all(t, name, addrs)[k] == t[k],
{
    let a = addrs[0];
    lemma_session_idx_bounds(t, name);
    let fresh = SessionView { name, members: seq![a], pending: Seq::empty() };
    let t1 = spec_join(t, name, a);
    assert(t1 == t.push(fresh));
    assert(t1[t.len() as int].wf());
    assert(table_wf(t1));
    lemma_session_idx_of_scan(t1, name, t.len() as int);
    assert(forall|j: int| 1 <= j < addrs.len() ==> addrs[j] == addrs.drop_first()[j - 1]);
    assert forall|k: int|
        0 <= k < addrs.drop_first().len() implies !session_of(t1, name).members.contains(
        #[trigger] addrs.drop_first()[k],
    ) by {
        let y = addrs.drop_first()[k];
        assert(y == addrs[k + 1]);
        assert(y != a);
        if seq![a].contains(y) {
            let w = choose|w: int| 0 <= w < seq![a].len() && seq![a][w] == y;
        }
    }
    lemma_join_all_existing(t1, name, addrs.drop_first());
    assert(seq![a] + addrs.drop_first() =~= addrs);
    assert(join_all(t, name, addrs) == join_all(t1, name, addrs.drop_first()));
    assert(forall|k: int|
        0 <= k < t1.len() && k != t.len() ==> join_all(t1, name, addrs.drop_first())[k] == t1[k]);
    assert(forall|k: int| 0 <= k < t.len() ==> t1[k] == t[k]);
}

/// FIFO per recipient: two fan-outs from `a` in the same session append
/// their messages, in sending order, to the queue of every other member
/// `b`. Since a dequeue always takes the head of the recipient's queue,
/// `b` receives `m1` before `m2`, whatever else is queued around them.
pub proof fn lemma_fifo_per_recipient(
    t: Seq<SessionView>,
    name: Seq<char>,
    a: u64,
    b: u64,
    m1: MsgView,
    m2: MsgView,
)
    requires
        table_wf(t),
        has_session(t, name),
        session_of(t, name).members.contains(b),
        b != a,
    ensures
        ({
            let t2 = spec_enqueue(spec_enqueue(t, name, a, m1), name, a, m2);
            &&& has_session(t2, name)
            &&& queued_for(session_of(t2, name).pending, b) == queued_for(
                session_of(t, name).pending,
                b,
            ) + seq![m1, m2]
        }),
{
    lemma_session_idx_bounds(t, name);
    let i = session_idx(t, name);
    let sv = t[i];
    let t1 = spec_enqueue(t, name, a, m1);
    assert(t1 == t.update(i, SessionView { pending: sv.pending + fanout(sv.members, a, m1), ..sv }));
    lemma_session_idx_of_scan(t1, name, i);
    let sv1 = t1[i];
    let t2 = spec_enqueue(t1, name, a, m2);
    assert(t2 == t1.update(
        i,
        SessionView { pending: sv1.pending + fanout(sv1.members, a, m2), ..sv1 },
    ));
    lemma_session_idx_of_scan(t2, name, i);
    lemma_queued_for_concat(sv.pending, fanout(sv.members, a, m1), b);
    lemma_queued_for_fanout(sv.members, a, m1, b);
    lemma_queued_for_concat(sv1.pending, fanout(sv1.members, a, m2), b);
    lemma_queued_for_fanout(sv.members, a, m2, b);
    assert(queued_for(session_of(t2, name).pending, b) =~= queued_for(sv.pending, b) + seq![
        m1,
        m2,
    ]);
}

/// The dequeue half of per-recipient FIFO: a recipient `b` with an empty
/// queue that is then sent `m1` and `m2` from `a` dequeues exactly `m1`
/// first and `m2` second.
pub proof fn lemma_fifo_dequeue_order(
    t: Seq<SessionView>,
    name: Seq<char>,
    a: u64,
    b: u64,
    m1: MsgView,
    m2: MsgView,
)
    requires
        table_wf(t),
        has_session(t, name),
        session_of(t, name).members.contains(b),
        b != a,
        queued_for(session_of(t, name).pending, b) == Seq::<MsgView>::empty(),
    ensures
        ({
            let t2 = spec_enqueue(spec_enqueue(t, name, a, m1), name, a, m2);
            let p2 = session_of(t2, name).pending;
            &&& queued_for(p2, b) == seq![m1, m2]
            &&& first_for(p2, b) >= 0
            &&& p2[first_for(p2, b)].1 == m1
            &&& {
                let t3 = spec_dequeue(t2, name, b);
                let p3 = session_of(t3, name).pending;
                &&& has_session(t3, name)
                &&& queued_for(p3, b) == seq![m2]
                &&& first_for(p3, b) >= 0
                &&& p3[first_for(p3, b)].1 == m2
            }
        }),
{
    lemma_fifo_per_recipient(t, name, a, b, m1, m2);
    lemma_session_idx_bounds(t, name);
    let i = session_idx(t, name);
    let t1 = spec_enqueue(t, name, a, m1);
    lemma_session_idx_of_scan(t1, name, i);
    let t2 = spec_enqueue(t1, name, a, m2);
    lemma_session_idx_of_scan(t2, name, i);
    let p2 = session_of(t2, name).pending;
    assert(Seq::<MsgView>::empty() + seq![m1, m2] =~= seq![m1, m2]);
    lemma_first_for(p2, b);
    lemma_dequeue_first(p2, b);
    let t3 = spec_dequeue(t2, name, b);
    assert(t3 == t2.update(i, SessionView { pending: p2.remove(first_for(p2, b)), ..t2[i] }));
    lemma_session_idx_of_scan(t3, name, i);
    let p3 = session_of(t3, name).pending;
    assert(queued_for(p3, b) =~= seq![m2]);
    lemma_first_for(p3, b);
    lemma_dequeue_first(p3, b);
}

/// No self-delivery: a fan-out never queues anything for its own sender.
pub proof fn lemma_no_self_delivery(t: Seq<SessionView>, name: Seq<char>, from: u64, m: MsgView)
    requires
        table_wf(t),
        has_session(t, name),
    ensures
        has_session(spec_enqueue(t, name, from, m), name),
        queued_for(session_of(spec_enqueue(t, name, from, m), name).pending, from) == queued_for(
            session_of(t, name).pending,
            from,
        ),
{
    lemma_session_idx_bounds(t, name);
    let i = session_idx(t, name);
    let sv = t[i];
    let t1 = spec_enqueue(t, name, from, m);
    lemma_session_idx_of_scan(t1, name, i);
    lemma_queued_for_concat(sv.pending, fanout(sv.members, from, m), from);
    lemma_queued_for_fanout(sv.members, from, m, from);
    assert(queued_for(session_of(t1, name).pending, from) =~= queued_for(sv.pending, from));
}

/// Session garbage collection: when its last member leaves, the session
/// disappears from the table in the same step, and a later join request for
/// the same name creates a fresh session whose host is the new requester.
pub proof fn lemma_session_collected(t: Seq<SessionView>, name: Seq<char>, addr: u64, next: u64)
    requires
        table_wf(t),
        has_session(t, name),
        session_of(t, name).members == seq![addr],
    ensures
        ({
            let t1 = spec_remove_member(t, name, addr);
            &&& table_wf(t1)
            &&& !has_session(t1, name)
            &&& {
                let t2 = spec_join(t1, name, next);
                &&& has_session(t2, name)
                &&& session_of(t2, name).members == seq![next]
                &&& session_of(t2, name).host() == next
                &&& session_of(t2, name).pending == Seq::<(u64, MsgView)>::empty()
            }
        }),
{
    lemma_session_idx_bounds(t, name);
    let i = session_idx(t, name);
    let sv = t[i];
    assert(sv.members.contains(addr)) by {
        assert(sv.members[0] == addr);
    }
    let t1 = spec_remove_member(t, name, addr);
    assert(t1 == t.remove(i));
    t.remove_ensures(i);
    assert(table_wf(t1));
    lemma_session_idx_bounds(t1, name);
    if session_idx(t1, name) >= 0 {
        let k = session_idx(t1, name);
        if k < i {
            assert(t1[k] == t[k]);
        } else {
            assert(t1[k] == t[k + 1]);
        }
        assert(false);
    }
    let t2 = spec_join(t1, name, next);
    assert(t2 == t1.push(SessionView { name, members: seq![next], pending: Seq::empty() }));
    lemma_session_idx_of_scan(t2, name, t1.len() as int);
}

/// One session of the table, as executable data.
pub struct Session {
    pub name: String,
    pub members: Vec<u64>,
    pub pending: Vec<(u64, NetworkMessage)>,
}

/// The view of a pending queue.
pub open spec fn pending_view(p: Seq<(u64, NetworkMessage)>) -> Seq<(u64, MsgView)> {
    Seq::new(p.len(), |i: int| (p[i].0, p[i].1@))
}

impl View for Session {
    type V = SessionView;

    open spec fn view(&self) -> SessionView {
        SessionView {
            name: self.name@,
            members: self.members@,
            pending: pending_view(self.pending@),
        }
    }
}

/// Whether `x` occurs in `v`.
fn addrs_contain(v: &Vec<u64>, x: u64) -> (r: bool)
    ensures
        r == v@.contains(x),
{
    let mut j: usize = 0;
    while j < v.len()
        invariant
            j <= v@.len(),
            forall|k: int| 0 <= k < j ==> v@[k] != x,
        decreases v@.len() - j,
    {
        if v[j] == x {
            return true;
        }
        j = j + 1;
    }
    false
}

/// The first position of `x` in `v`, if any.
fn addr_position(v: &Vec<u64>, x: u64) -> (r: Option<usize>)
    ensures
        match r {
            Some(j) => addr_idx(v@, x) == j && j < v@.len(),
            None => !v@.contains(x),
        },
{
    let mut j: usize = 0;
    while j < v.len()
        invariant
            j <= v@.len(),
            forall|k: int| 0 <= k < j ==> v@[k] != x,
        decreases v@.len() - j,
    {
        if v[j] == x {
            proof {
                lemma_addr_idx_of_scan(v@, x, j as int);
            }
            return Some(j);
        }
        j = j + 1;
    }
    None
}

/// A vector holding exactly one address.
fn vec_of_one(x: u64) -> (r: Vec<u64>)
    ensures
        r@ == seq![x],
{
    let mut r: Vec<u64> = Vec::new();
    r.push(x);
    proof {
        assert(r@ =~= seq![x]);
    }
    r
}

/// The table of live sessions: the single piece of state that concurrent
/// connection handlers share. Each method is one unit of atomicity.
pub struct SessionTable {
    sessions: Vec<Session>,
}

impl View for SessionTable {
    type V = Seq<SessionView>;

    closed spec fn view(&self) -> Seq<SessionView> {
        Seq::new(self.sessions@.len(), |i: int| self.sessions@[i]@)
    }
}

impl SessionTable {
    /// An empty table.
    pub fn new() -> (r: SessionTable)
        ensures
            r@ == Seq::<SessionView>::empty(),
            table_wf(r@),
    {
        let r = SessionTable { sessions: Vec::new() };
        proof {
            assert(r@ =~= Seq::<SessionView>::empty());
        }
        r
    }

    /// The index of the session named `name`, if any.
    fn find_idx(&self, name: &String) -> (r: Option<usize>)
        ensures
            match r {
                Some(i) => session_idx(self@, name@) == i,
                None => !has_session(self@, name@),
            },
    {
        let mut i: usize = 0;
        while i < self.sessions.len()
            invariant
                i <= self.sessions@.len(),
                self@.len() == self.sessions@.len(),
                forall|j: int| 0 <= j < i ==> (#[trigger] self@[j]).name != name@,
            decreases self.sessions@.len() - i,
        {
            if self.sessions[i].name == *name {
                proof {
                    lemma_session_idx_of_scan(self@, name@, i as int);
                }
                return Some(i);
            }
            i = i + 1;
        }
        proof {
            if session_idx(self@, name@) >= 0 {
                lemma_session_idx_bounds(self@, name@);
            }
        }
        None
    }

    /// Whether a session named `name` exists.
    pub fn contains_session(&self, name: &String) -> (r: bool)
        ensures
            r == has_session(self@, name@),
    {
        match self.find_idx(name) {
            Some(_) => true,
            None => false,
        }
    }

    /// The host (first member) of the session named `name`, if it exists.
    pub fn host_of(&self, name: &String) -> (r: Option<u64>)
        requires
            table_wf(self@),
        ensures
            match r {
                Some(h) => has_session(self@, name@) && h == session_of(self@, name@).host(),
                None => !has_session(self@, name@),
            },
    {
        proof {
            lemma_session_idx_bounds(self@, name@);
        }
        match self.find_idx(name) {
            Some(i) => Some(self.sessions[i].members[0]),
            None => None,
        }
    }

    /// Whether `addr` is a member of the session named `name`.
    pub fn has_member(&self, name: &String, addr: u64) -> (r: bool)
        ensures
            r == (has_session(self@, name@) && session_of(self@, name@).members.contains(addr)),
    {
        proof {
            lemma_session_idx_bounds(self@, name@);
        }
        match self.find_idx(name) {
            Some(i) => addrs_contain(&self.sessions[i].members, addr),
            None => false,
        }
    }

    /// Finds the session named `name`, creating it with `creator` as sole
    /// member (and so as host) if no session has that name; otherwise joins
    /// `creator` to it. Returns whether the session was created. One call is
    /// one atomic read-and-write of the table: of two racing creators, one
    /// creates and becomes host and the other joins.
    pub fn find_or_create(&mut self, name: &String, creator: u64) -> (created: bool)
        requires
            table_wf(old(self)@),
        ensures
            final(self)@ == spec_join(old(self)@, name@, creator),
            created == !has_session(old(self)@, name@),
            table_wf(final(self)@),
            has_session(final(self)@, name@),
    {
        proof {
            lemma_session_idx_bounds(self@, name@);
        }
        let ghost t0 = self@;
        match self.find_idx(name) {
            Some(i) => {
                let ghost svold = self@[i as int];
                let is_member = addrs_contain(&self.sessions[i].members, creator);
                if !is_member {
                    self.sessions[i].members.push(creator);
                }
                proof {
                    assert(self@ =~~= t0.update(i as int, join_session(svold, creator)));
                    assert(self@[i as int].wf()) by {
                        if !svold.members.contains(creator) {
                            assert(forall|k: int|
                                0 <= k < svold.members.len() ==> svold.members[k]
                                    != creator);
                        }
                    }
                    assert(table_wf(self@));
                    lemma_session_idx_of_scan(self@, name@, i as int);
                }
                false
            },
            None => {
                let s = Session {
                    name: name.clone(),
                    members: vec_of_one(creator),
                    pending: Vec::new(),
                };
                self.sessions.push(s);
                proof {
                    assert(self@ =~~= t0.push(
                        SessionView { name: name@, members: seq![creator], pending: Seq::empty() },
                    ));
                    lemma_session_idx_bounds(t0, name@);
                    assert(self@[t0.len() as int].wf());
                    assert(table_wf(self@));
                    lemma_session_idx_of_scan(self@, name@, t0.len() as int);
                }
                true
            },
        }
    }

    /// Removes `addr` from the session named `name`; when that empties the
    /// membership, the session is deleted in the same step. Returns whether
    /// the session was deleted. Nothing changes if the session or the member
    /// does not exist.
    pub fn remove_member(&mut self, name: &String, addr: u64) -> (now_empty: bool)
        requires
            table_wf(old(self)@),
        ensures
            final(self)@ == spec_remove_member(old(self)@, name@, addr),
            table_wf(final(self)@),
            now_empty == (has_session(old(self)@, name@) && session_of(old(self)@, name@)
                .members.contains(addr) && session_of(old(self)@, name@).members.len() == 1),
            now_empty ==> !has_session(final(self)@, name@),
    {
        proof {
            lemma_session_idx_bounds(self@, name@);
        }
        let ghost t0 = self@;
        match self.find_idx(name) {
            Some(i) => {
                let ghost sv0 = t0[i as int];
                let is_member = addrs_contain(&self.sessions[i].members, addr);
                if !is_member {
                    return false;
                }
                if self.sessions[i].members.len() == 1 {
                    let _ = self.sessions.remove(i);
                    proof {
                        assert(self@ =~~= t0.remove(i as int));
                        t0.remove_ensures(i as int);
                        assert(table_wf(self@));
                        lemma_session_idx_bounds(self@, name@);
                        if session_idx(self@, name@) >= 0 {
                            let k = session_idx(self@, name@);
                            if k < i {
                                assert(self@[k] == t0[k]);
                            } else {
                                assert(self@[k] == t0[k + 1]);
                            }
                            assert(false);
                        }
                    }
                    true
                } else {
                    let pos = match addr_position(&self.sessions[i].members, addr) {
                        Some(j) => j,
                        None => vstd::pervasive::unreached(),
                    };
                    let _ = self.sessions[i].members.remove(pos);
                    proof {
                        lemma_remove_addr(sv0.members, addr);
                        assert(self@ =~~= t0.update(
                            i as int,
                            SessionView { members: remove_addr(sv0.members, addr), ..sv0 },
                        ));
                        assert(self@[i as int].wf());
                        assert(table_wf(self@));
                    }
                    false
                }
            },
            None => false,
        }
    }

    /// Queues `msg` for every member of the session named `name` other than
    /// `from`, in member order; nothing changes if there is no such session.
    pub fn enqueue(&mut self, name: &String, from: u64, msg: &NetworkMessage)
        requires
            table_wf(old(self)@),
        ensures
            final(self)@ == spec_enqueue(old(self)@, name@, from, msg@),
            table_wf(final(self)@),
    {
        proof {
            lemma_session_idx_bounds(self@, name@);
        }
        let ghost t0 = self@;
        match self.find_idx(name) {
            Some(i) => {
                let ghost sv0 = t0[i as int];
                let n = self.sessions[i].members.len();
                let mut j: usize = 0;
                proof {
                    assert(sv0.members.take(0) =~= Seq::<u64>::empty());
                    assert(sv0.pending + fanout(Seq::<u64>::empty(), from, msg@) =~= sv0.pending);
                    assert(self@ =~~= t0.update(
                        i as int,
                        SessionView {
                            pending: sv0.pending + fanout(
                                sv0.members.take(0),
                                from,
                                msg@,
                            ),
                            ..sv0
                        },
                    ));
                }
                while j < n
                    invariant
                        j <= n,
                        0 <= i < t0.len(),
                        table_wf(t0),
                        sv0 == t0[i as int],
                        n == sv0.members.len(),
                        self@ == t0.update(
                            i as int,
                            SessionView {
                                pending: sv0.pending + fanout(
                                    sv0.members.take(j as int),
                                    from,
                                    msg@,
                                ),
                                ..sv0
                            },
                        ),
                        self.sessions@.len() == t0.len(),
                        self.sessions@[i as int]@.members == sv0.members,
                        self.sessions@[i as int]@.pending == sv0.pending + fanout(
                            sv0.members.take(j as int),
                            from,
                            msg@,
                        ),
                    decreases n - j,
                {
                    let ghost prev = self@;
                    let who = self.sessions[i].members[j];
                    if who != from {
                        let d = msg.duplicate();
                        self.sessions[i].pending.push((who, d));
                        proof {
                            assert(self@ =~~= prev.update(
                                i as int,
                                SessionView {
                                    pending: prev[i as int].pending.push((who, msg@)),
                                    ..prev[i as int]
                                },
                            ));
                        }
                    }
                    proof {
                        assert(sv0.members.take(j as int + 1) =~= sv0.members.take(j as int)
                            + seq![sv0.members[j as int]]);
                        lemma_fanout_concat(
                            sv0.members.take(j as int),
                            seq![sv0.members[j as int]],
                            from,
                            msg@,
                        );
                        lemma_fanout_singleton(sv0.members[j as int], from, msg@);
                        let fj = fanout(sv0.members.take(j as int), from, msg@);
                        let fj1 = fanout(sv0.members.take(j as int + 1), from, msg@);
                        assert(prev[i as int].pending == sv0.pending + fj);
                        if who == from {
                            assert(sv0.pending + fj1 =~= sv0.pending + fj);
                            assert(self@ =~~= t0.update(
                                i as int,
                                SessionView { pending: sv0.pending + fj1, ..sv0 },
                            ));
                        } else {
                            assert((sv0.pending + fj).push((who, msg@)) =~= sv0.pending + fj1);
                            assert(self@ =~~= t0.update(
                                i as int,
                                SessionView { pending: sv0.pending + fj1, ..sv0 },
                            ));
                        }
                    }
                    j = j + 1;
                }
                proof {
                    assert(sv0.members.take(n as int) =~= sv0.members);
                    assert(table_wf(self@));
                }
            },
            None => {},
        }
    }

    /// Queues `msg` once for every member of the session named `name`, in
    /// member order; nothing changes if there is no such session.
    pub fn broadcast(&mut self, name: &String, msg: &NetworkMessage)
        requires
            table_wf(old(self)@),
        ensures
            final(self)@ == spec_broadcast(old(self)@, name@, msg@),
            table_wf(final(self)@),
    {
        proof {
            lemma_session_idx_bounds(self@, name@);
        }
        let ghost t0 = self@;
        match self.find_idx(name) {
            Some(i) => {
                let ghost sv0 = t0[i as int];
                let n = self.sessions[i].members.len();
                let mut j: usize = 0;
                proof {
                    assert(sv0.members.take(0) =~= Seq::<u64>::empty());
                    assert(sv0.pending + all_entries(Seq::<u64>::empty(), msg@) =~= sv0.pending);
                    assert(self@ =~~= t0.update(
                        i as int,
                        SessionView {
                            pending: sv0.pending + all_entries(sv0.members.take(0), msg@),
                            ..sv0
                        },
                    ));
                }
                while j < n
                    invariant
                        j <= n,
                        0 <= i < t0.len(),
                        table_wf(t0),
                        sv0 == t0[i as int],
                        n == sv0.members.len(),
                        self@ == t0.update(
                            i as int,
                            SessionView {
                                pending: sv0.pending + all_entries(
                                    sv0.members.take(j as int),
                                    msg@,
                                ),
                                ..sv0
                            },
                        ),
                        self.sessions@.len() == t0.len(),
                        self.sessions@[i as int]@.members == sv0.members,
                        self.sessions@[i as int]@.pending == sv0.pending + all_entries(
                            sv0.members.take(j as int),
                            msg@,
                        ),
                    decreases n - j,
                {
                    let ghost prev = self@;
                    let who = self.sessions[i].members[j];
                    let d = msg.duplicate();
                    self.sessions[i].pending.push((who, d));
                    proof {
                        assert(self@ =~~= prev.update(
                            i as int,
                            SessionView {
                                pending: prev[i as int].pending.push((who, msg@)),
                                ..prev[i as int]
                            },
                        ));
                        assert(sv0.members.take(j as int + 1) =~= sv0.members.take(j as int)
                            + seq![sv0.members[j as int]]);
                        lemma_all_entries_concat(
                            sv0.members.take(j as int),
                            seq![sv0.members[j as int]],
                            msg@,
                        );
                        lemma_all_entries_singleton(sv0.members[j as int], msg@);
                        let aj = all_entries(sv0.members.take(j as int), msg@);
                        let aj1 = all_entries(sv0.members.take(j as int + 1), msg@);
                        assert(prev[i as int].pending == sv0.pending + aj);
                        assert((sv0.pending + aj).push((who, msg@)) =~= sv0.pending + aj1);
                        assert(self@ =~~= t0.update(
                            i as int,
                            SessionView { pending: sv0.pending + aj1, ..sv0 },
                        ));
                    }
                    j = j + 1;
                }
                proof {
                    assert(sv0.members.take(n as int) =~= sv0.members);
                    assert(table_wf(self@));
                }
            },
            None => {},
        }
    }

    /// Queues `msg` for the host (first member) of the session named
    /// `name`; nothing changes if there is no such session.
    pub fn notify_host(&mut self, name: &String, msg: &NetworkMessage)
        requires
            table_wf(old(self)@),
        ensures
            final(self)@ == spec_notify_host(old(self)@, name@, msg@),
            table_wf(final(self)@),
    {
        proof {
            lemma_session_idx_bounds(self@, name@);
        }
        let ghost t0 = self@;
        match self.find_idx(name) {
            Some(i) => {
                let ghost sv0 = t0[i as int];
                let host = self.sessions[i].members[0];
                let d = msg.duplicate();
                self.sessions[i].pending.push((host, d));
                proof {
                    assert(self@ =~~= t0.update(
                        i as int,
                        SessionView { pending: sv0.pending.push((sv0.host(), msg@)), ..sv0 },
                    ));
                    assert(table_wf(self@));
                }
            },
            None => {},
        }
    }

    /// Hands `addr` its oldest queued delivery from the session named
    /// `name`, preserving the order of everything else. Returns `None` when
    /// nothing is queued for `addr` (or no such session exists).
    pub fn dequeue_for(&mut self, name: &String, addr: u64) -> (r: Option<NetworkMessage>)
        requires
            table_wf(old(self)@),
        ensures
            final(self)@ == spec_dequeue(old(self)@, name@, addr),
            table_wf(final(self)@),
            match r {
                Some(m) => has_session(old(self)@, name@) && {
                    let q = queued_for(session_of(old(self)@, name@).pending, addr);
                    &&& q.len() > 0
                    &&& m@ == q[0]
                    &&& has_session(final(self)@, name@)
                    &&& queued_for(session_of(final(self)@, name@).pending, addr)
                        == q.drop_first()
                    &&& forall|b: u64|
                        b != addr ==> queued_for(
                            session_of(final(self)@, name@).pending,
                            b,
                        ) == queued_for(session_of(old(self)@, name@).pending, b)
                },
                None => !has_session(old(self)@, name@) || queued_for(
                    session_of(old(self)@, name@).pending,
                    addr,
                ).len() == 0,
            },
    {
        proof {
            lemma_session_idx_bounds(self@, name@);
        }
        let ghost t0 = self@;
        match self.find_idx(name) {
            Some(i) => {
                let ghost sv0 = t0[i as int];
                let plen = self.sessions[i].pending.len();
                let mut j: usize = 0;
                while j < plen
                    invariant
                        j <= plen,
                        0 <= i < t0.len(),
                        table_wf(t0),
                        t0 == old(self)@,
                        self@ == t0,
                        sv0 == t0[i as int],
                        sv0.name == name@,
                        session_idx(t0, name@) == i,
                        self.sessions@.len() == t0.len(),
                        plen == sv0.pending.len(),
                        sv0 == self.sessions@[i as int]@,
                        forall|k: int| 0 <= k < j ==> (#[trigger] sv0.pending[k]).0 != addr,
                    decreases plen - j,
                {
                    if self.sessions[i].pending[j].0 == addr {
                        proof {
                            lemma_first_for_of_scan(sv0.pending, addr, j as int);
                            lemma_dequeue_first(sv0.pending, addr);
                        }
                        let ghost prev = self@;
                        let e = self.sessions[i].pending.remove(j);
                        proof {
                            assert(self.sessions@[i as int]@.pending =~= sv0.pending.remove(
                                j as int,
                            ));
                            assert(self@ =~~= t0.update(
                                i as int,
                                SessionView { pending: sv0.pending.remove(j as int), ..sv0 },
                            ));
                            assert(table_wf(self@));
                            assert(forall|k: int|
                                0 <= k < self@.len() && k != i ==> self@[k] == t0[k]);
                            assert(forall|k: int|
                                0 <= k < i ==> (#[trigger] self@[k]).name != name@);
                            lemma_session_idx_of_scan(self@, name@, i as int);
                            assert(session_of(self@, name@) == self@[i as int]);
                            assert(self@[i as int].pending == sv0.pending.remove(j as int));
                            assert(session_of(t0, name@) == sv0);
                            assert(e.1@ == sv0.pending[j as int].1);
                            assert(session_of(t0, name@) == sv0);
                            assert(self@ == spec_dequeue(t0, name@, addr));
                        }
                        return Some(e.1);
                    }
                    j = j + 1;
                }
                proof {
                    lemma_first_for(sv0.pending, addr);
                    if first_for(sv0.pending, addr) >= 0 {
                        assert(false);
                    }
                }
                None
            },
            None => None,
        }
    }
}

} // verus!
