//! Election safety: at most one leader per term. A node grants at most one
//! vote per term, and a leader holds the votes of a strict majority, so two
//! leaders of one term would share a voter who voted twice.

use crate::invariants::{
    lemma_deadlines, lemma_deliver_all, lemma_elections, lemma_envelope_kept, lemma_filter_from,
    lemma_filtered_inbox, lemma_heartbeat_rounds, lemma_initial, lemma_log_event,
    lemma_reset_election_timer, lemma_send_heartbeats, lemma_send_to_peers, lemma_wf_nodes,
    lemma_with_node,
};
use crate::message::{EnvelopeView, LogEntryView, MessageView};
use crate::model::{highest_committable, merge_entries, SimulationView};
use crate::node::{fresh_node, NodeView, Role};
use crate::text::{election_text, leader_text, vote_text};
use vstd::prelude::*;

verus! {

/// Candidate (or leader) `c` counts the vote of `v` in term `t`.
pub open spec fn counted_vote(nodes: Seq<NodeView>, v: usize, c: usize, t: u64) -> bool {
    &&& c < nodes.len()
    &&& nodes[c as int].role != Role::Follower
    &&& nodes[c as int].current_term == t
    &&& nodes[c as int].votes_received.contains(v)
}

/// `env` is `v`'s granted vote for `c` in term `t`, on its way.
pub open spec fn granted_reply(env: EnvelopeView, v: usize, c: usize, t: u64) -> bool {
    &&& env.to == c
    &&& env.message == (MessageView::RequestVoteReply { term: t, vote_granted: true, voter_id: v })
}

/// A granted vote reply, whoever it is from.
pub open spec fn is_granted(m: MessageView) -> bool {
    m matches MessageView::RequestVoteReply { vote_granted: true, .. }
}

pub open spec fn reply_in_flight(msgs: Seq<EnvelopeView>, v: usize, c: usize, t: u64) -> bool {
    exists|k: int| 0 <= k < msgs.len() && #[trigger] granted_reply(msgs[k], v, c, t)
}

/// A vote of `v` for `c` in term `t` that still counts or may still be counted.
pub open spec fn vote_on_record(nodes: Seq<NodeView>, msgs: Seq<EnvelopeView>, v: usize, c: usize, t: u64) -> bool {
    counted_vote(nodes, v, c, t) || reply_in_flight(msgs, v, c, t)
}

/// Voter `v` has reached term `t`, and while in `t` it stays committed to `c`.
pub open spec fn vote_pinned(nodes: Seq<NodeView>, v: usize, c: usize, t: u64) -> bool {
    &&& v < nodes.len()
    &&& t <= nodes[v as int].current_term
    &&& nodes[v as int].current_term == t ==> nodes[v as int].voted_for == Some(c)
}

/// The votes on record are pinned, no voter has two candidates on record
/// in one term, and every leader counts the votes of a strict majority.
pub open spec fn votes_safe(nodes: Seq<NodeView>, msgs: Seq<EnvelopeView>) -> bool {
    &&& forall|v: usize, c: usize, t: u64| #[trigger]
        vote_on_record(nodes, msgs, v, c, t) ==> vote_pinned(nodes, v, c, t)
    &&& forall|v: usize, c1: usize, c2: usize, t: u64|
        #[trigger] vote_on_record(nodes, msgs, v, c1, t) && #[trigger] vote_on_record(nodes, msgs, v, c2, t)
            ==> c1 == c2
    &&& forall|c: int|
        0 <= c < nodes.len() && (#[trigger] nodes[c]).role == Role::Leader ==> nodes[c].votes_received.len()
            >= nodes.len() / 2 + 1
}

/// How a voter's state may change: its term never goes back, and within a
/// term a cast vote stays cast.
pub open spec fn vote_evolves(a: NodeView, b: NodeView) -> bool {
    &&& a.current_term <= b.current_term
    &&& a.current_term == b.current_term && a.voted_for is Some ==> b.voted_for == a.voted_for
}

impl SimulationView {
    /// The invariant of every simulation that `new` builds and the public
    /// operations change: well formed, with safe votes.
    #[verifier::opaque]
    pub open spec fn safe(self) -> bool {
        self.wf() && votes_safe(self.nodes, self.inbox)
    }

    /// Safe, counting besides the messages on the bus the vote records `x`
    /// (granted vote replies kept as a record of how an election went).
    pub open spec fn safe_with(self, x: Seq<EnvelopeView>) -> bool {
        self.wf() && votes_safe(self.nodes, self.inbox + x)
    }
}

/// Records of the later state are records of the earlier one.
pub proof fn lemma_records_kept(
    n1: Seq<NodeView>,
    m1: Seq<EnvelopeView>,
    n2: Seq<NodeView>,
    m2: Seq<EnvelopeView>,
)
    requires
        forall|v: usize, c: usize, t: u64| #[trigger]
            counted_vote(n2, v, c, t) ==> vote_on_record(n1, m1, v, c, t),
        forall|k: int|
            0 <= k < m2.len() && is_granted((#[trigger] m2[k]).message) ==> m1.contains(m2[k]),
    ensures
        forall|v: usize, c: usize, t: u64| #[trigger]
            vote_on_record(n2, m2, v, c, t) ==> vote_on_record(n1, m1, v, c, t),
{
    assert forall|v: usize, c: usize, t: u64| #[trigger]
        vote_on_record(n2, m2, v, c, t) implies vote_on_record(n1, m1, v, c, t) by {
        if !counted_vote(n2, v, c, t) {
            let k = choose|k: int| 0 <= k < m2.len() && #[trigger] granted_reply(m2[k], v, c, t);
            assert(m1.contains(m2[k]));
            let j = choose|j: int| 0 <= j < m1.len() && m1[j] == m2[k];
            assert(granted_reply(m1[j], v, c, t));
        }
    }
}

/// Safety survives when records only disappear, voters only evolve, and
/// leaders keep their majorities.
pub proof fn lemma_votes_safe_shrink(
    n1: Seq<NodeView>,
    m1: Seq<EnvelopeView>,
    n2: Seq<NodeView>,
    m2: Seq<EnvelopeView>,
)
    requires
        votes_safe(n1, m1),
        n2.len() == n1.len(),
        forall|v: usize, c: usize, t: u64| #[trigger]
            vote_on_record(n2, m2, v, c, t) ==> vote_on_record(n1, m1, v, c, t),
        forall|i: int| 0 <= i < n1.len() ==> vote_evolves(#[trigger] n1[i], n2[i]),
        forall|c: int|
            0 <= c < n2.len() && (#[trigger] n2[c]).role == Role::Leader ==> n2[c].votes_received.len()
                >= n2.len() / 2 + 1,
    ensures
        votes_safe(n2, m2),
{
    assert forall|v: usize, c: usize, t: u64| #[trigger]
        vote_on_record(n2, m2, v, c, t) implies vote_pinned(n2, v, c, t) by {
        assert(vote_on_record(n1, m1, v, c, t));
        assert(vote_evolves(n1[v as int], n2[v as int]));
    }
    assert forall|v: usize, c1: usize, c2: usize, t: u64|
        #[trigger] vote_on_record(n2, m2, v, c1, t) && #[trigger] vote_on_record(n2, m2, v, c2, t)
            implies c1 == c2 by {
        assert(vote_on_record(n1, m1, v, c1, t));
        assert(vote_on_record(n1, m1, v, c2, t));
    }
}

/// A finite set of indices below `n` has at most `n` elements.
pub proof fn lemma_indices_len(s: Set<usize>, n: nat)
    requires
        s.finite(),
        forall|x: usize| #[trigger] s.contains(x) ==> x < n,
    ensures
        s.len() <= n,
    decreases n,
{
    if n == 0 {
        if s.len() > 0 {
            let x = s.choose();
            assert(s.contains(x));
        }
    } else {
        let top = (n - 1) as usize;
        let rest = s.remove(top);
        assert forall|x: usize| #[trigger] rest.contains(x) implies x < (n - 1) as nat by {
            assert(s.contains(x));
        }
        lemma_indices_len(rest, (n - 1) as nat);
    }
}

/// Two strict majorities of the same `n` indices share an index.
pub proof fn lemma_majorities_meet(a: Set<usize>, b: Set<usize>, n: nat) -> (v: usize)
    requires
        a.finite(),
        b.finite(),
        forall|x: usize| #[trigger] a.contains(x) ==> x < n,
        forall|x: usize| #[trigger] b.contains(x) ==> x < n,
        a.len() >= n / 2 + 1,
        b.len() >= n / 2 + 1,
    ensures
        a.contains(v),
        b.contains(v),
{
    vstd::set_lib::lemma_set_intersect_union_lens(a, b);
    assert forall|x: usize| #[trigger] (a + b).contains(x) implies x < n by {
        if a.contains(x) {
        } else {
            assert(b.contains(x));
        }
    }
    lemma_indices_len(a + b, n);
    assert(a.intersect(b).len() > 0);
    let v = a.intersect(b).choose();
    assert(a.intersect(b).contains(v));
    v
}

/// At most one leader per term: in a simulation that keeps its invariant,
/// two nodes that are both leader in the same term are the same node.
pub proof fn lemma_one_leader_per_term(s: SimulationView, i: int, j: int)
    requires
        s.safe(),
        0 <= i < s.nodes.len(),
        0 <= j < s.nodes.len(),
        s.nodes[i].role == Role::Leader,
        s.nodes[j].role == Role::Leader,
        s.nodes[i].current_term == s.nodes[j].current_term,
    ensures
        i == j,
{
    reveal(SimulationView::safe);
    reveal(SimulationView::wf);
    assert(s.node_ok(i));
    assert(s.node_ok(j));
    let n = s.nodes.len();
    let t = s.nodes[i].current_term;
    let a = s.nodes[i].votes_received;
    let b = s.nodes[j].votes_received;
    assert forall|x: usize| #[trigger] a.contains(x) implies x < n by {
        assert(counted_vote(s.nodes, x, i as usize, t));
        assert(vote_on_record(s.nodes, s.inbox, x, i as usize, t));
    }
    assert forall|x: usize| #[trigger] b.contains(x) implies x < n by {
        assert(counted_vote(s.nodes, x, j as usize, t));
        assert(vote_on_record(s.nodes, s.inbox, x, j as usize, t));
    }
    assert(s.nodes[i].votes_received.len() >= n / 2 + 1);
    assert(s.nodes[j].votes_received.len() >= n / 2 + 1);
    let v = lemma_majorities_meet(a, b, n);
    assert(counted_vote(s.nodes, v, i as usize, t));
    assert(counted_vote(s.nodes, v, j as usize, t));
    assert(vote_on_record(s.nodes, s.inbox, v, i as usize, t));
    assert(vote_on_record(s.nodes, s.inbox, v, j as usize, t));
}

/// Safety survives when node `i` alone changes, evolving as a voter,
/// counting no vote it did not count before, and keeping any majority.
pub proof fn lemma_vs_node_change(n1: Seq<NodeView>, n2: Seq<NodeView>, m: Seq<EnvelopeView>, i: int)
    requires
        votes_safe(n1, m),
        n2.len() == n1.len(),
        0 <= i < n1.len(),
        forall|j: int| 0 <= j < n1.len() && j != i ==> n2[j] == n1[j],
        vote_evolves(n1[i], n2[i]),
        forall|v: usize, t: u64| #[trigger]
            counted_vote(n2, v, i as usize, t) ==> counted_vote(n1, v, i as usize, t),
        n2[i].role == Role::Leader ==> n2[i].votes_received.len() >= n2.len() / 2 + 1,
    ensures
        votes_safe(n2, m),
{
    assert forall|v: usize, c: usize, t: u64| #[trigger]
        counted_vote(n2, v, c, t) implies vote_on_record(n1, m, v, c, t) by {
        if c as int != i {
            assert(n2[c as int] == n1[c as int]);
            assert(counted_vote(n1, v, c, t));
        } else {
            assert(counted_vote(n1, v, i as usize, t));
        }
    }
    lemma_records_kept(n1, m, n2, m);
    assert forall|j: int| 0 <= j < n1.len() implies vote_evolves(#[trigger] n1[j], n2[j]) by {
        if j != i {
            assert(n2[j] == n1[j]);
        }
    }
    assert forall|c: int|
        0 <= c < n2.len() && (#[trigger] n2[c]).role == Role::Leader implies n2[c].votes_received.len()
            >= n2.len() / 2 + 1 by {
        if c != i {
            assert(n2[c] == n1[c]);
        }
    }
    lemma_votes_safe_shrink(n1, m, n2, m);
}

/// Safety survives when every vote reply of the new messages was already there.
pub proof fn lemma_vs_msgs(n: Seq<NodeView>, m1: Seq<EnvelopeView>, m2: Seq<EnvelopeView>)
    requires
        votes_safe(n, m1),
        forall|k: int|
            0 <= k < m2.len() && is_granted((#[trigger] m2[k]).message) ==> m1.contains(m2[k]),
    ensures
        votes_safe(n, m2),
{
    lemma_records_kept(n, m1, n, m2);
    lemma_votes_safe_shrink(n, m1, n, m2);
}

/// Safety survives a new granted reply of `v` for `c` in `v`'s current
/// term, when `v` has voted for `c` in that term.
pub proof fn lemma_vs_grant(
    n: Seq<NodeView>,
    m1: Seq<EnvelopeView>,
    m2: Seq<EnvelopeView>,
    env: EnvelopeView,
    v: usize,
    c: usize,
)
    requires
        votes_safe(n, m1),
        v < n.len(),
        n[v as int].voted_for == Some(c),
        granted_reply(env, v, c, n[v as int].current_term),
        forall|k: int| 0 <= k < m2.len() ==> m2[k] == env || m1.contains(#[trigger] m2[k]),
    ensures
        votes_safe(n, m2),
{
    let t = n[v as int].current_term;
    assert forall|x: usize, d: usize, u: u64| #[trigger]
        vote_on_record(n, m2, x, d, u) implies vote_on_record(n, m1, x, d, u) || (x == v && d == c && u == t) by {
        if !counted_vote(n, x, d, u) {
            let k = choose|k: int| 0 <= k < m2.len() && #[trigger] granted_reply(m2[k], x, d, u);
            if m2[k] != env {
                let j = choose|j: int| 0 <= j < m1.len() && m1[j] == m2[k];
                assert(granted_reply(m1[j], x, d, u));
            }
        }
    }
    assert forall|x: usize, d: usize, u: u64| #[trigger]
        vote_on_record(n, m2, x, d, u) implies vote_pinned(n, x, d, u) by {
        if !(x == v && d == c && u == t) {
            assert(vote_on_record(n, m1, x, d, u));
        }
    }
    assert forall|x: usize, d1: usize, d2: usize, u: u64|
        #[trigger] vote_on_record(n, m2, x, d1, u) && #[trigger] vote_on_record(n, m2, x, d2, u)
            implies d1 == d2 by {
        if x == v && u == t {
            if vote_on_record(n, m1, x, d1, u) {
                assert(vote_pinned(n, x, d1, u));
            }
            if vote_on_record(n, m1, x, d2, u) {
                assert(vote_pinned(n, x, d2, u));
            }
        } else {
            assert(vote_on_record(n, m1, x, d1, u));
            assert(vote_on_record(n, m1, x, d2, u));
        }
    }
}

/// Safety survives candidate `c` counting the vote whose granted reply it
/// receives, the reply leaving the bus.
pub proof fn lemma_vs_count(
    n1: Seq<NodeView>,
    m1: Seq<EnvelopeView>,
    n2: Seq<NodeView>,
    m2: Seq<EnvelopeView>,
    c: usize,
    v: usize,
    k: int,
)
    requires
        votes_safe(n1, m1),
        c < n1.len(),
        n1[c as int].role == Role::Candidate,
        0 <= k < m1.len(),
        granted_reply(m1[k], v, c, n1[c as int].current_term),
        n2 == n1.update(
            c as int,
            NodeView { votes_received: n1[c as int].votes_received.insert(v), ..n1[c as int] },
        ),
        forall|j: int|
            0 <= j < m2.len() && is_granted((#[trigger] m2[j]).message) ==> m1.contains(m2[j]),
    ensures
        votes_safe(n2, m2),
{
    assert forall|x: usize, d: usize, u: u64| #[trigger]
        counted_vote(n2, x, d, u) implies vote_on_record(n1, m1, x, d, u) by {
        if d != c || x != v {
            assert(counted_vote(n1, x, d, u));
        } else if u == n1[c as int].current_term {
            assert(granted_reply(m1[k], x, d, u));
        }
    }
    lemma_records_kept(n1, m1, n2, m2);
    assert forall|j: int| 0 <= j < n1.len() implies vote_evolves(#[trigger] n1[j], n2[j]) by {}
    assert forall|j: int|
        0 <= j < n2.len() && (#[trigger] n2[j]).role == Role::Leader implies n2[j].votes_received.len()
            >= n2.len() / 2 + 1 by {
        assert(n2[j] == n1[j]);
    }
    lemma_votes_safe_shrink(n1, m1, n2, m2);
}

/// Safety survives node `i` starting a candidacy in the next term, voting
/// for itself alone.
pub proof fn lemma_vs_candidacy(n1: Seq<NodeView>, n2: Seq<NodeView>, m: Seq<EnvelopeView>, i: usize)
    requires
        votes_safe(n1, m),
        i < n1.len(),
        n2.len() == n1.len(),
        forall|j: int| 0 <= j < n1.len() && j != i ==> n2[j] == n1[j],
        n2[i as int].current_term == n1[i as int].current_term + 1,
        n2[i as int].role == Role::Candidate,
        n2[i as int].voted_for == Some(i),
        n2[i as int].votes_received == Set::<usize>::empty().insert(i),
    ensures
        votes_safe(n2, m),
{
    let t = n2[i as int].current_term;
    assert forall|x: usize, d: usize, u: u64| #[trigger]
        vote_on_record(n2, m, x, d, u) implies vote_on_record(n1, m, x, d, u) || (x == i && d == i && u == t) by {
        if counted_vote(n2, x, d, u) && d != i {
            assert(n2[d as int] == n1[d as int]);
            assert(counted_vote(n1, x, d, u));
        }
    }
    assert forall|x: usize, d: usize, u: u64| #[trigger]
        vote_on_record(n2, m, x, d, u) implies vote_pinned(n2, x, d, u) by {
        if !(x == i && d == i && u == t) {
            assert(vote_on_record(n1, m, x, d, u));
            assert(vote_pinned(n1, x, d, u));
            if x != i {
                assert(n2[x as int] == n1[x as int]);
            }
        }
    }
    assert forall|x: usize, d1: usize, d2: usize, u: u64|
        #[trigger] vote_on_record(n2, m, x, d1, u) && #[trigger] vote_on_record(n2, m, x, d2, u)
            implies d1 == d2 by {
        if x == i && u == t {
            if vote_on_record(n1, m, x, d1, u) {
                assert(vote_pinned(n1, x, d1, u));
            }
            if vote_on_record(n1, m, x, d2, u) {
                assert(vote_pinned(n1, x, d2, u));
            }
        } else {
            assert(vote_on_record(n1, m, x, d1, u));
            assert(vote_on_record(n1, m, x, d2, u));
        }
    }
    assert forall|c: int|
        0 <= c < n2.len() && (#[trigger] n2[c]).role == Role::Leader implies n2[c].votes_received.len()
            >= n2.len() / 2 + 1 by {
        assert(n2[c] == n1[c]);
    }
}

/// Pushing `env` on the bus: every message of the new world is `env` or was there.
pub proof fn lemma_world_push(inbox: Seq<EnvelopeView>, env: EnvelopeView, rest: Seq<EnvelopeView>)
    ensures
        forall|k: int|
            0 <= k < (inbox.push(env) + rest).len() ==> (inbox.push(env) + rest)[k] == env || (inbox
                + rest).contains(#[trigger] (inbox.push(env) + rest)[k]),
{
    let w2 = inbox.push(env) + rest;
    let w1 = inbox + rest;
    assert forall|k: int| 0 <= k < w2.len() implies w2[k] == env || w1.contains(#[trigger] w2[k]) by {
        if k < inbox.len() {
            assert(w1[k] == w2[k]);
        } else if k > inbox.len() {
            assert(w1[k - 1] == w2[k]);
        }
    }
}

pub proof fn lemma_vs_send(s: SimulationView, from: usize, to: usize, m: MessageView, rest: Seq<EnvelopeView>)
    requires
        votes_safe(s.nodes, s.inbox + rest),
        !is_granted(m),
    ensures
        votes_safe(s.send(from, to, m).nodes, s.send(from, to, m).inbox + rest),
{
    let t = s.send(from, to, m);
    if s.nodes[to as int].alive {
        let env = EnvelopeView { from, to, deliver_at: (s.tick + s.network_delay) as u64, message: m };
        lemma_world_push(s.inbox, env, rest);
        lemma_vs_msgs(s.nodes, s.inbox + rest, t.inbox + rest);
    }
}

pub proof fn lemma_vs_send_to_peers(
    s: SimulationView,
    from: usize,
    m: MessageView,
    k: nat,
    rest: Seq<EnvelopeView>,
)
    requires
        votes_safe(s.nodes, s.inbox + rest),
        !is_granted(m),
    ensures
        votes_safe(s.send_to_peers_below(from, m, k).nodes, s.send_to_peers_below(from, m, k).inbox + rest),
        s.send_to_peers_below(from, m, k).nodes == s.nodes,
    decreases k,
{
    if k > 0 {
        lemma_vs_send_to_peers(s, from, m, (k - 1) as nat, rest);
        let t = s.send_to_peers_below(from, m, (k - 1) as nat);
        if k - 1 != from {
            lemma_vs_send(t, from, (k - 1) as usize, m, rest);
        }
    }
}

pub proof fn lemma_vs_heartbeats(s: SimulationView, id: usize, k: nat, rest: Seq<EnvelopeView>)
    requires
        votes_safe(s.nodes, s.inbox + rest),
    ensures
        votes_safe(s.heartbeats_below(id, k).nodes, s.heartbeats_below(id, k).inbox + rest),
        s.heartbeats_below(id, k).nodes == s.nodes,
    decreases k,
{
    if k > 0 {
        lemma_vs_heartbeats(s, id, (k - 1) as nat, rest);
        let t = s.heartbeats_below(id, (k - 1) as nat);
        if k - 1 != id {
            lemma_vs_send(t, id, (k - 1) as usize, s.heartbeat_message(id, (k - 1) as usize), rest);
        }
    }
}

pub proof fn lemma_vs_send_heartbeats(s: SimulationView, id: usize, rest: Seq<EnvelopeView>)
    requires
        votes_safe(s.nodes, s.inbox + rest),
    ensures
        votes_safe(s.send_heartbeats(id).nodes, s.send_heartbeats(id).inbox + rest),
        s.send_heartbeats(id).nodes == s.nodes,
{
    let node = s.nodes[id as int];
    if node.alive && node.role == Role::Leader {
        lemma_vs_heartbeats(s, id, s.nodes.len(), rest);
    }
}

/// Node `i` changed in fields that votes do not see, or not at all.
pub open spec fn same_votes(a: NodeView, b: NodeView) -> bool {
    &&& a.role == b.role
    &&& a.current_term == b.current_term
    &&& a.voted_for == b.voted_for
    &&& a.votes_received == b.votes_received
}

pub proof fn lemma_vs_same_votes(s: SimulationView, t: SimulationView, i: int, rest: Seq<EnvelopeView>)
    requires
        votes_safe(s.nodes, s.inbox + rest),
        t.inbox == s.inbox,
        t.nodes.len() == s.nodes.len(),
        0 <= i < s.nodes.len(),
        forall|j: int| 0 <= j < s.nodes.len() && j != i ==> t.nodes[j] == s.nodes[j],
        same_votes(s.nodes[i], t.nodes[i]),
    ensures
        votes_safe(t.nodes, t.inbox + rest),
{
    assert forall|v: usize, u: u64| #[trigger]
        counted_vote(t.nodes, v, i as usize, u) implies counted_vote(s.nodes, v, i as usize, u) by {}
    if t.nodes[i].role == Role::Leader {
        assert(s.nodes[i].role == Role::Leader);
    }
    lemma_vs_node_change(s.nodes, t.nodes, s.inbox + rest, i);
}

pub proof fn lemma_vs_reset(s: SimulationView, i: usize, rest: Seq<EnvelopeView>)
    requires
        s.wf(),
        i < s.nodes.len(),
        votes_safe(s.nodes, s.inbox + rest),
    ensures
        votes_safe(s.reset_election_timer(i).nodes, s.reset_election_timer(i).inbox + rest),
{
    lemma_reset_election_timer(s, i, 0);
    lemma_vs_same_votes(s, s.reset_election_timer(i), i as int, rest);
}

/// Node `i` becoming a follower (dropping any count of votes), in the same
/// term or a later one, without giving up a vote cast in the same term.
pub proof fn lemma_vs_to_follower(s: SimulationView, i: usize, node: NodeView, rest: Seq<EnvelopeView>)
    requires
        votes_safe(s.nodes, s.inbox + rest),
        i < s.nodes.len(),
        node.role == Role::Follower,
        vote_evolves(s.nodes[i as int], node),
    ensures
        votes_safe(s.with_node(i, node).nodes, s.with_node(i, node).inbox + rest),
{
    let t = s.with_node(i, node);
    assert forall|v: usize, u: u64| #[trigger]
        counted_vote(t.nodes, v, i, u) implies counted_vote(s.nodes, v, i, u) by {}
    lemma_vs_node_change(s.nodes, t.nodes, s.inbox + rest, i as int);
}

/// Candidate `i` taking office with a majority of votes.
pub proof fn lemma_vs_become_leader(s: SimulationView, i: usize, rest: Seq<EnvelopeView>)
    requires
        s.wf(),
        i < s.nodes.len(),
        s.nodes[i as int].role == Role::Candidate,
        s.nodes[i as int].votes_received.len() >= s.quorum(),
        votes_safe(s.nodes, s.inbox + rest),
    ensures
        votes_safe(s.become_leader(i).nodes, s.become_leader(i).inbox + rest),
{
    let node = s.nodes[i as int];
    let len = node.log.len();
    let n = s.nodes.len();
    let leader = NodeView {
        role: Role::Leader,
        next_index: Seq::new(n, |k: int| (len + 1) as usize),
        match_index: Seq::new(n, |k: int| 0usize).update(i as int, len as usize),
        ..node
    };
    let s1 = s.with_node(i, leader);
    assert forall|v: usize, u: u64| #[trigger]
        counted_vote(s1.nodes, v, i, u) implies counted_vote(s.nodes, v, i, u) by {}
    lemma_vs_node_change(s.nodes, s1.nodes, s.inbox + rest, i as int);
    let s15 = s1.log_event(leader_text(i, node.current_term));
    let s2 = s15.send_heartbeats(i);
    lemma_vs_send_heartbeats(s15, i, rest);
    let last = NodeView { heartbeat_deadline: (s2.tick + s2.heartbeat_interval) as u64, ..s2.nodes[i as int] };
    lemma_vs_same_votes(s2, s2.with_node(i, last), i as int, rest);
}

pub proof fn lemma_vs_start_election(s: SimulationView, i: usize, rest: Seq<EnvelopeView>)
    requires
        s.wf(),
        i < s.nodes.len(),
        s.nodes[i as int].current_term < u64::MAX,
        votes_safe(s.nodes, s.inbox + rest),
    ensures
        votes_safe(s.start_election(i).nodes, s.start_election(i).inbox + rest),
{
    let node = s.nodes[i as int];
    if node.alive {
        let term = (node.current_term + 1) as u64;
        let cand = NodeView {
            role: Role::Candidate,
            current_term: term,
            voted_for: Some(i),
            votes_received: Set::empty().insert(i),
            ..node
        };
        let s1 = s.with_node(i, cand);
        lemma_vs_candidacy(s.nodes, s1.nodes, s.inbox + rest, i);
        lemma_wf_nodes(s, i as int);
        assert(s1.node_ok(i as int));
        lemma_with_node(s, i, cand, 0);
        let s15 = s1.log_event(election_text(i, term));
        lemma_log_event(s1, election_text(i, term), 0);
        let s2 = s15.reset_election_timer(i);
        lemma_vs_reset(s15, i, rest);
        lemma_reset_election_timer(s15, i, 0);
        let request = MessageView::RequestVote {
            term,
            candidate_id: i,
            last_log_index: s2.nodes[i as int].log.len() as usize,
            last_log_term: s2.nodes[i as int].last_log_term(),
        };
        let s3 = s2.send_to_peers_below(i, request, s2.nodes.len());
        lemma_vs_send_to_peers(s2, i, request, s2.nodes.len(), rest);
        lemma_send_to_peers(s2, i, request, s2.nodes.len(), 0);
        if s3.nodes[i as int].votes_received.len() >= s3.quorum() {
            lemma_vs_become_leader(s3, i, rest);
        }
    }
}

pub proof fn lemma_vs_handle_request_vote(
    s: SimulationView,
    id: usize,
    term: u64,
    candidate_id: usize,
    last_log_index: usize,
    last_log_term: u64,
    rest: Seq<EnvelopeView>,
)
    requires
        s.wf(),
        id < s.nodes.len(),
        candidate_id < s.nodes.len(),
        votes_safe(s.nodes, s.inbox + rest),
    ensures
        ({
            let t = s.handle_request_vote(id, term, candidate_id, last_log_index, last_log_term);
            votes_safe(t.nodes, t.inbox + rest)
        }),
{
    let node0 = s.nodes[id as int];
    if node0.alive {
        lemma_wf_nodes(s, id as int);
        let s1 = if term > node0.current_term {
            s.with_node(id, node0.become_follower(term))
        } else {
            s
        };
        if term > node0.current_term {
            lemma_vs_to_follower(s, id, node0.become_follower(term), rest);
            assert(s1.node_ok(id as int));
            lemma_with_node(s, id, node0.become_follower(term), 0);
        }
        let node = s1.nodes[id as int];
        let grant = term >= node.current_term && node.up_to_date(
            last_log_term,
            last_log_index as int,
        ) && (node.voted_for is None || node.voted_for == Some(candidate_id));
        let voter = NodeView { voted_for: Some(candidate_id), ..node };
        let s2 = if grant {
            s1.with_node(id, voter).reset_election_timer(id)
        } else {
            s1
        };
        if grant {
            let sv = s1.with_node(id, voter);
            assert forall|v: usize, u: u64| #[trigger]
                counted_vote(sv.nodes, v, id, u) implies counted_vote(s1.nodes, v, id, u) by {}
            lemma_vs_node_change(s1.nodes, sv.nodes, s1.inbox + rest, id as int);
            lemma_wf_nodes(s1, id as int);
            assert(sv.node_ok(id as int));
            lemma_with_node(s1, id, voter, 0);
            lemma_vs_reset(sv, id, rest);
        }
        let reply_term = s2.nodes[id as int].current_term;
        let s3 = s2.log_event(vote_text(id, grant, candidate_id, reply_term));
        let reply = MessageView::RequestVoteReply { term: reply_term, vote_granted: grant, voter_id: id };
        if grant {
            if s3.nodes[candidate_id as int].alive {
                let env = EnvelopeView {
                    from: id,
                    to: candidate_id,
                    deliver_at: (s3.tick + s3.network_delay) as u64,
                    message: reply,
                };
                lemma_world_push(s3.inbox, env, rest);
                lemma_vs_grant(s3.nodes, s3.inbox + rest, s3.send(id, candidate_id, reply).inbox + rest, env, id, candidate_id);
            }
        } else {
            lemma_vs_send(s3, id, candidate_id, reply, rest);
        }
    }
}

pub proof fn lemma_vs_handle_append_entries(
    s: SimulationView,
    id: usize,
    term: u64,
    leader_id: usize,
    prev_log_index: usize,
    prev_log_term: u64,
    entries: Seq<LogEntryView>,
    leader_commit: usize,
    rest: Seq<EnvelopeView>,
)
    requires
        s.wf(),
        id < s.nodes.len(),
        votes_safe(s.nodes, s.inbox + rest),
    ensures
        ({
            let t = s.handle_append_entries(
                id,
                term,
                leader_id,
                prev_log_index,
                prev_log_term,
                entries,
                leader_commit,
            );
            votes_safe(t.nodes, t.inbox + rest)
        }),
{
    let node0 = s.nodes[id as int];
    if !node0.alive {
    } else if term < node0.current_term {
        let reply = MessageView::AppendEntriesReply {
            term: node0.current_term,
            success: false,
            follower_id: id,
            match_index: 0,
        };
        lemma_vs_send(s, id, leader_id, reply, rest);
    } else {
        lemma_wf_nodes(s, id as int);
        let follower = if term > node0.current_term {
            NodeView { role: Role::Follower, current_term: term, voted_for: None, ..node0 }
        } else {
            NodeView { role: Role::Follower, ..node0 }
        };
        let s0 = s.with_node(id, follower);
        lemma_vs_to_follower(s, id, follower, rest);
        assert(s0.node_ok(id as int));
        lemma_with_node(s, id, follower, 0);
        let s1 = s0.reset_election_timer(id);
        lemma_vs_reset(s0, id, rest);
        lemma_reset_election_timer(s0, id, 0);
        let node = s1.nodes[id as int];
        let success = prev_log_index > 0 ==> (prev_log_index <= node.log.len()
            && node.log[prev_log_index - 1].term == prev_log_term);
        if success {
            let log = merge_entries(node.log, prev_log_index as int, entries);
            let commit_index = if leader_commit > node.commit_index {
                if leader_commit <= log.len() {
                    leader_commit
                } else {
                    log.len() as usize
                }
            } else {
                node.commit_index
            };
            let updated = NodeView { log, commit_index, ..node };
            let s2 = s1.with_node(id, updated);
            lemma_vs_same_votes(s1, s2, id as int, rest);
            let reply = MessageView::AppendEntriesReply {
                term,
                success: true,
                follower_id: id,
                match_index: (prev_log_index + entries.len()) as usize,
            };
            lemma_vs_send(s2, id, leader_id, reply, rest);
        } else {
            let reply = MessageView::AppendEntriesReply {
                term,
                success: false,
                follower_id: id,
                match_index: 0,
            };
            lemma_vs_send(s1, id, leader_id, reply, rest);
        }
    }
}

pub proof fn lemma_vs_handle_append_entries_reply(
    s: SimulationView,
    id: usize,
    term: u64,
    success: bool,
    follower_id: usize,
    match_index: usize,
    rest: Seq<EnvelopeView>,
)
    requires
        s.wf(),
        id < s.nodes.len(),
        votes_safe(s.nodes, s.inbox + rest),
    ensures
        ({
            let t = s.handle_append_entries_reply(id, term, success, follower_id, match_index);
            votes_safe(t.nodes, t.inbox + rest)
        }),
{
    let node = s.nodes[id as int];
    if !node.alive {
    } else if term > node.current_term {
        lemma_vs_to_follower(s, id, node.become_follower(term), rest);
    } else if node.role != Role::Leader || term != node.current_term {
    } else if success {
        let updated = NodeView {
            match_index: node.match_index.update(follower_id as int, match_index),
            next_index: node.next_index.update(follower_id as int, (match_index + 1) as usize),
            ..node
        };
        let s1 = s.with_node(id, updated);
        lemma_vs_same_votes(s, s1, id as int, rest);
        let n1 = s1.nodes[id as int];
        let new_commit = highest_committable(n1, id as int, s1.nodes.len(), s1.quorum(), n1.log.len() as int);
        if new_commit > n1.commit_index {
            let committed = NodeView { commit_index: new_commit as usize, ..n1 };
            lemma_vs_same_votes(s1, s1.with_node(id, committed), id as int, rest);
        }
    } else if node.next_index[follower_id as int] > 1 {
        let updated = NodeView {
            next_index: node.next_index.update(
                follower_id as int,
                (node.next_index[follower_id as int] - 1) as usize,
            ),
            ..node
        };
        lemma_vs_same_votes(s, s.with_node(id, updated), id as int, rest);
    }
}

/// Taking the first pending message off the world.
pub proof fn lemma_world_drop(inbox: Seq<EnvelopeView>, p: Seq<EnvelopeView>)
    requires
        p.len() > 0,
    ensures
        forall|k: int|
            0 <= k < (inbox + p.drop_first()).len() ==> (inbox + p).contains(
                #[trigger] (inbox + p.drop_first())[k],
            ),
        (inbox + p)[inbox.len() as int] == p[0],
{
    let w1 = inbox + p;
    let w2 = inbox + p.drop_first();
    assert forall|k: int| 0 <= k < w2.len() implies w1.contains(#[trigger] w2[k]) by {
        if k < inbox.len() {
            assert(w1[k] == w2[k]);
        } else {
            assert(w1[k + 1] == w2[k]);
        }
    }
}

pub proof fn lemma_vs_handle_request_vote_reply(
    s: SimulationView,
    id: usize,
    term: u64,
    vote_granted: bool,
    voter_id: usize,
    p: Seq<EnvelopeView>,
)
    requires
        s.wf(),
        id < s.nodes.len(),
        p.len() > 0,
        p[0].to == id,
        p[0].message == (MessageView::RequestVoteReply { term, vote_granted, voter_id }),
        votes_safe(s.nodes, s.inbox + p),
    ensures
        ({
            let t = s.handle_request_vote_reply(id, term, vote_granted, voter_id);
            votes_safe(t.nodes, t.inbox + p.drop_first())
        }),
{
    let rest = p.drop_first();
    let node = s.nodes[id as int];
    lemma_world_drop(s.inbox, p);
    if !node.alive || term > node.current_term || node.role != Role::Candidate || term
        != node.current_term || !vote_granted {
        lemma_vs_msgs(s.nodes, s.inbox + p, s.inbox + rest);
        if node.alive && term > node.current_term {
            lemma_vs_to_follower(s, id, node.become_follower(term), rest);
        }
    } else {
        let counted = NodeView { votes_received: node.votes_received.insert(voter_id), ..node };
        let s1 = s.with_node(id, counted);
        assert(granted_reply((s.inbox + p)[s.inbox.len() as int], voter_id, id, node.current_term));
        lemma_vs_count(s.nodes, s.inbox + p, s1.nodes, s1.inbox + rest, id, voter_id, s.inbox.len() as int);
        if s1.nodes[id as int].votes_received.len() >= s1.quorum() {
            lemma_wf_nodes(s, id as int);
            assert(s1.node_ok(id as int));
            lemma_with_node(s, id, counted, 0);
            lemma_vs_become_leader(s1, id, rest);
        }
    }
}

pub proof fn lemma_vs_deliver(s: SimulationView, p: Seq<EnvelopeView>)
    requires
        s.wf(),
        p.len() > 0,
        s.envelope_ok(p[0]),
        votes_safe(s.nodes, s.inbox + p),
    ensures
        votes_safe(s.deliver(p[0]).nodes, s.deliver(p[0]).inbox + p.drop_first()),
{
    let env = p[0];
    let rest = p.drop_first();
    lemma_world_drop(s.inbox, p);
    match env.message {
        MessageView::RequestVoteReply { term, vote_granted, voter_id } => {
            lemma_vs_handle_request_vote_reply(s, env.to, term, vote_granted, voter_id, p);
        },
        MessageView::RequestVote { term, candidate_id, last_log_index, last_log_term } => {
            lemma_vs_msgs(s.nodes, s.inbox + p, s.inbox + rest);
            lemma_vs_handle_request_vote(s, env.to, term, candidate_id, last_log_index, last_log_term, rest);
        },
        MessageView::AppendEntries {
            term,
            leader_id,
            prev_log_index,
            prev_log_term,
            entries,
            leader_commit,
        } => {
            lemma_vs_msgs(s.nodes, s.inbox + p, s.inbox + rest);
            lemma_vs_handle_append_entries(
                s,
                env.to,
                term,
                leader_id,
                prev_log_index,
                prev_log_term,
                entries,
                leader_commit,
                rest,
            );
        },
        MessageView::AppendEntriesReply { term, success, follower_id, match_index } => {
            lemma_vs_msgs(s.nodes, s.inbox + p, s.inbox + rest);
            lemma_vs_handle_append_entries_reply(s, env.to, term, success, follower_id, match_index, rest);
        },
    }
}

pub proof fn lemma_vs_deliver_all(s: SimulationView, d: Seq<EnvelopeView>, j: nat, x: Seq<EnvelopeView>)
    requires
        s.wf(),
        j <= d.len(),
        forall|k: int| 0 <= k < d.len() ==> s.envelope_ok(#[trigger] d[k]),
        votes_safe(s.nodes, s.inbox + (d + x)),
    ensures
        votes_safe(s.deliver_all(d.take(j as int)).nodes, s.deliver_all(d.take(j as int)).inbox + (d.skip(
            j as int,
        ) + x)),
    decreases j,
{
    if j == 0 {
        assert(d.take(0) =~= Seq::<EnvelopeView>::empty());
        assert(d.skip(0) =~= d);
    } else {
        let i = (j - 1) as nat;
        lemma_vs_deliver_all(s, d, i, x);
        let init = d.take(i as int);
        assert forall|k: int| 0 <= k < init.len() implies s.envelope_ok(#[trigger] init[k]) by {
            assert(init[k] == d[k]);
        }
        lemma_deliver_all(s, init, 0);
        let t = s.deliver_all(init);
        lemma_envelope_kept(s, t, d[i as int]);
        let p = d.skip(i as int) + x;
        assert(p[0] == d[i as int]);
        lemma_vs_deliver(t, p);
        assert(d.take(j as int).drop_last() =~= init);
        assert(p.drop_first() =~= d.skip(j as int) + x);
    }
}

pub proof fn lemma_vs_elections(s: SimulationView, k: nat, b: int, x: Seq<EnvelopeView>)
    requires
        s.wf(),
        k <= s.nodes.len(),
        b < u64::MAX,
        s.terms_at_most(b),
        votes_safe(s.nodes, s.inbox + x),
    ensures
        votes_safe(s.elections_below(k).nodes, s.elections_below(k).inbox + x),
    decreases k,
{
    if k > 0 {
        reveal(SimulationView::wf);
        lemma_vs_elections(s, (k - 1) as nat, b, x);
        lemma_elections(s, (k - 1) as nat, b);
        let t = s.elections_below((k - 1) as nat);
        let i = (k - 1) as usize;
        assert(t.nodes[i as int] == s.nodes[i as int]);
        assert(s.nodes[i as int].current_term <= b);
        if t.election_due(i as int) {
            lemma_vs_start_election(t, i, x);
        }
    }
}

pub proof fn lemma_vs_heartbeat_rounds(s: SimulationView, k: nat, x: Seq<EnvelopeView>)
    requires
        s.wf(),
        k <= s.nodes.len(),
        votes_safe(s.nodes, s.inbox + x),
    ensures
        votes_safe(s.heartbeat_rounds_below(k).nodes, s.heartbeat_rounds_below(k).inbox + x),
    decreases k,
{
    if k > 0 {
        reveal(SimulationView::wf);
        lemma_vs_heartbeat_rounds(s, (k - 1) as nat, x);
        lemma_heartbeat_rounds(s, (k - 1) as nat, 0);
        let t = s.heartbeat_rounds_below((k - 1) as nat);
        let i = (k - 1) as usize;
        if t.heartbeat_due(i as int) {
            let u = t.send_heartbeats(i);
            lemma_vs_send_heartbeats(t, i, x);
            lemma_send_heartbeats(t, i, 0);
            let last = NodeView { heartbeat_deadline: (u.tick + u.heartbeat_interval) as u64, ..u.nodes[i as int] };
            lemma_vs_same_votes(u, u.with_node(i, last), i as int, x);
        }
    }
}

/// One tick keeps the simulation safe.
pub proof fn lemma_safe_step(s: SimulationView, b: int)
    requires
        s.safe(),
        b < u64::MAX,
        s.terms_at_most(b),
    ensures
        s.step().safe(),
{
    reveal(SimulationView::safe);
    let e = Seq::<EnvelopeView>::empty();
    assert(s.inbox + e =~= s.inbox);
    lemma_safe_with_step(s, b, e);
    assert(s.step().inbox + e =~= s.step().inbox);
}

/// One tick keeps the simulation safe together with any records `x` kept
/// beside its messages.
pub proof fn lemma_safe_with_step(s: SimulationView, b: int, x: Seq<EnvelopeView>)
    requires
        s.safe_with(x),
        b < u64::MAX,
        s.terms_at_most(b),
    ensures
        s.step().safe_with(x),
{
    crate::invariants::lemma_step(s, b);
    let tick = (s.tick + 1) as u64;
    let pending = SimulationView::pending_at(s.inbox, tick);
    let due = SimulationView::due_at(s.inbox, tick);
    let s1 = SimulationView { tick, inbox: pending, ..s };
    lemma_filtered_inbox(s, |e: EnvelopeView| e.deliver_at > tick, b);
    lemma_filtered_inbox(s, |e: EnvelopeView| e.deliver_at <= tick, b);
    lemma_filter_from(s.inbox, |e: EnvelopeView| e.deliver_at > tick);
    lemma_filter_from(s.inbox, |e: EnvelopeView| e.deliver_at <= tick);
    let world = (pending + due) + x;
    assert forall|k: int| 0 <= k < world.len() implies (s.inbox + x).contains(#[trigger] world[k]) by {
        if k < pending.len() {
            assert(world[k] == pending[k]);
            assert(s.inbox.contains(pending[k]));
            let m = choose|m: int| 0 <= m < s.inbox.len() && s.inbox[m] == pending[k];
            assert((s.inbox + x)[m] == world[k]);
        } else if k < pending.len() + due.len() {
            assert(world[k] == due[k - pending.len()]);
            assert(s.inbox.contains(due[k - pending.len()]));
            let m = choose|m: int| 0 <= m < s.inbox.len() && s.inbox[m] == due[k - pending.len()];
            assert((s.inbox + x)[m] == world[k]);
        } else {
            assert(world[k] == x[k - pending.len() - due.len()]);
            assert((s.inbox + x)[s.inbox.len() + (k - pending.len() - due.len())] == world[k]);
        }
    }
    lemma_vs_msgs(s.nodes, s.inbox + x, world);
    assert(world =~= s1.inbox + (due + x));
    reveal(SimulationView::wf);
    assert forall|i: int| 0 <= i < s1.nodes.len() implies #[trigger] s1.node_ok(i) by {
        assert(s.node_ok(i));
    }
    assert(s1.wf());
    assert forall|k: int| 0 <= k < due.len() implies s1.envelope_ok(#[trigger] due[k]) by {
        assert(s.envelope_ok(due[k]));
    }
    lemma_vs_deliver_all(s1, due, due.len(), x);
    assert(due.take(due.len() as int) =~= due);
    let s2 = s1.deliver_all(due);
    assert(due.skip(due.len() as int) + x =~= x);
    lemma_deliver_all(s1, due, b);
    lemma_vs_elections(s2, s2.nodes.len(), b, x);
    lemma_elections(s2, s2.nodes.len(), b);
    let s3 = s2.elections_below(s2.nodes.len());
    lemma_vs_heartbeat_rounds(s3, s3.nodes.len(), x);
}

/// A freshly built simulation is safe: no votes, no leaders.
pub proof fn lemma_safe_initial(node_count: usize, seed: u64)
    ensures
        SimulationView::initial(node_count, seed).safe(),
{
    reveal(SimulationView::safe);
    lemma_initial(node_count, seed);
    let n = node_count as nat;
    let s0 = SimulationView {
        nodes: Seq::new(n, |i: int| fresh_node(i as usize, n)),
        tick: 0,
        events: Seq::empty(),
        inbox: Seq::empty(),
        rng: crate::rng::seed_state(seed),
        election_timeout_min: 150,
        election_timeout_max: 300,
        heartbeat_interval: 50,
        network_delay: 10,
    };
    lemma_deadlines(s0, n);
    let s = s0.deadlines_below(n);
    assert forall|i: int| 0 <= i < s.nodes.len() implies (#[trigger] s.nodes[i]).role == Role::Follower by {
        assert(s.nodes[i] == NodeView { election_deadline: s.nodes[i].election_deadline, ..s0.nodes[i] });
    }
    assert forall|v: usize, c: usize, t: u64| !#[trigger] vote_on_record(s.nodes, s.inbox, v, c, t) by {
        if c < s.nodes.len() {
            assert(s.nodes[c as int].role == Role::Follower);
        }
    }
}

pub proof fn lemma_safe_kill(s: SimulationView, id: usize)
    requires
        s.safe(),
        id < s.nodes.len(),
    ensures
        s.kill(id).safe(),
{
    reveal(SimulationView::safe);
    let e = Seq::<EnvelopeView>::empty();
    assert(s.inbox + e =~= s.inbox);
    lemma_safe_with_kill(s, id, e);
    assert(s.kill(id).inbox + e =~= s.kill(id).inbox);
}

/// Killing a node keeps the simulation safe together with records `x`.
pub proof fn lemma_safe_with_kill(s: SimulationView, id: usize, x: Seq<EnvelopeView>)
    requires
        s.safe_with(x),
        id < s.nodes.len(),
    ensures
        s.kill(id).safe_with(x),
{
    crate::invariants::lemma_kill(s, id, 0);
    let node = NodeView { alive: false, ..s.nodes[id as int] };
    lemma_vs_same_votes(s, s.with_node(id, node), id as int, x);
}

pub proof fn lemma_safe_revive(s: SimulationView, id: usize)
    requires
        s.safe(),
        id < s.nodes.len(),
    ensures
        s.revive(id).safe(),
{
    reveal(SimulationView::safe);
    let e = Seq::<EnvelopeView>::empty();
    assert(s.inbox + e =~= s.inbox);
    lemma_safe_with_revive(s, id, e);
    assert(s.revive(id).inbox + e =~= s.revive(id).inbox);
}

/// Reviving a node keeps the simulation safe together with records `x`.
pub proof fn lemma_safe_with_revive(s: SimulationView, id: usize, x: Seq<EnvelopeView>)
    requires
        s.safe_with(x),
        id < s.nodes.len(),
    ensures
        s.revive(id).safe_with(x),
{
    crate::invariants::lemma_revive(s, id, 0);
    let node = NodeView { alive: true, role: Role::Follower, ..s.nodes[id as int] };
    lemma_vs_to_follower(s, id, node, x);
    let s1 = s.with_node(id, node);
    lemma_wf_nodes(s, id as int);
    assert(s1.node_ok(id as int));
    lemma_with_node(s, id, node, 0);
    lemma_vs_reset(s1, id, x);
}

pub proof fn lemma_safe_submit(s: SimulationView, command: Seq<char>)
    requires
        s.safe(),
        s.leader_index() matches Some(i) ==> s.nodes[i].log.len() < crate::model::log_limit(),
    ensures
        s.submit(command).safe(),
{
    reveal(SimulationView::safe);
    let e = Seq::<EnvelopeView>::empty();
    assert(s.inbox + e =~= s.inbox);
    lemma_safe_with_submit(s, command, e);
    assert(s.submit(command).inbox + e =~= s.submit(command).inbox);
}

/// A client request keeps the simulation safe together with records `x`.
pub proof fn lemma_safe_with_submit(s: SimulationView, command: Seq<char>, x: Seq<EnvelopeView>)
    requires
        s.safe_with(x),
        s.leader_index() matches Some(i) ==> s.nodes[i].log.len() < crate::model::log_limit(),
    ensures
        s.submit(command).safe_with(x),
{
    crate::invariants::lemma_submit(s, command, 0);
    s.lemma_leader_index();
    if let Some(pos) = s.leader_index() {
        lemma_wf_nodes(s, pos);
        let id = s.nodes[pos].id;
        let node = s.nodes[id as int];
        let log = node.log.push(LogEntryView { term: node.current_term, command });
        let updated = NodeView {
            log,
            match_index: node.match_index.update(id as int, log.len() as usize),
            ..node
        };
        lemma_vs_same_votes(s, s.with_node(id, updated), id as int, x);
    }
}

/// The record of an election: for each node `v` below `n`, a vote reply
/// from `v` to `leader` in `term`, granted exactly when `v` is among
/// `voters`.
pub open spec fn election_record(leader: usize, term: u64, voters: Set<usize>, n: nat) -> Seq<EnvelopeView> {
    Seq::new(
        n,
        |v: int|
            EnvelopeView {
                from: v as usize,
                to: leader,
                deliver_at: 0,
                message: MessageView::RequestVoteReply {
                    term,
                    vote_granted: voters.contains(v as usize),
                    voter_id: v as usize,
                },
            },
    )
}

/// A sitting leader's election can be kept on record: a safe simulation
/// stays safe with the record of the votes its leader `o` counts, and those
/// votes are a strict majority of the nodes.
pub proof fn lemma_election_recorded(s: SimulationView, o: int)
    requires
        s.safe(),
        0 <= o < s.nodes.len(),
        s.nodes[o].role == Role::Leader,
    ensures
        ({
            let voters = s.nodes[o].votes_received;
            &&& s.safe_with(election_record(o as usize, s.nodes[o].current_term, voters, s.nodes.len()))
            &&& voters.finite()
            &&& voters.len() >= s.nodes.len() / 2 + 1
            &&& forall|v: usize| #[trigger] voters.contains(v) ==> v < s.nodes.len()
        }),
{
    reveal(SimulationView::safe);
    reveal(SimulationView::wf);
    assert(s.node_ok(o));
    let n = s.nodes.len();
    let term = s.nodes[o].current_term;
    let voters = s.nodes[o].votes_received;
    let x = election_record(o as usize, term, voters, n);
    let m2 = s.inbox + x;
    assert forall|v: usize| #[trigger] voters.contains(v) implies v < n by {
        assert(counted_vote(s.nodes, v, o as usize, term));
        assert(vote_on_record(s.nodes, s.inbox, v, o as usize, term));
    }
    assert forall|v: usize, c: usize, t: u64| #[trigger]
        vote_on_record(s.nodes, m2, v, c, t) implies vote_on_record(s.nodes, s.inbox, v, c, t) by {
        if !counted_vote(s.nodes, v, c, t) {
            let k = choose|k: int| 0 <= k < m2.len() && #[trigger] granted_reply(m2[k], v, c, t);
            if k < s.inbox.len() {
                assert(m2[k] == s.inbox[k]);
                assert(granted_reply(s.inbox[k], v, c, t));
            } else {
                let i = k - s.inbox.len();
                assert(m2[k] == x[i]);
                assert(voters.contains(i as usize));
                assert(counted_vote(s.nodes, v, c, t));
            }
        }
    }
    assert forall|i: int| 0 <= i < n implies vote_evolves(#[trigger] s.nodes[i], s.nodes[i]) by {}
    lemma_votes_safe_shrink(s.nodes, s.inbox, s.nodes, m2);
}

/// Election safety over time: once node `o` has won `term` with a strict
/// majority of `voters`, no other node ever leads `term`. Every operation
/// keeps the record of that election beside the simulation (`safe_with`),
/// and any leader of `term` would need a vote from one of those voters.
pub proof fn lemma_term_has_one_leader_ever(
    t: SimulationView,
    o: usize,
    term: u64,
    voters: Set<usize>,
    j: int,
)
    requires
        t.safe_with(election_record(o, term, voters, t.nodes.len())),
        voters.finite(),
        voters.len() >= t.nodes.len() / 2 + 1,
        forall|v: usize| #[trigger] voters.contains(v) ==> v < t.nodes.len(),
        0 <= j < t.nodes.len(),
        t.nodes[j].role == Role::Leader,
        t.nodes[j].current_term == term,
    ensures
        j == o,
{
    reveal(SimulationView::wf);
    assert(t.node_ok(j));
    let n = t.nodes.len();
    let x = election_record(o, term, voters, n);
    let m = t.inbox + x;
    let b = t.nodes[j].votes_received;
    assert forall|v: usize| #[trigger] b.contains(v) implies v < n by {
        assert(counted_vote(t.nodes, v, j as usize, term));
        assert(vote_on_record(t.nodes, m, v, j as usize, term));
    }
    assert(t.nodes[j].votes_received.len() >= n / 2 + 1);
    let v = lemma_majorities_meet(voters, b, n);
    assert(counted_vote(t.nodes, v, j as usize, term));
    assert(vote_on_record(t.nodes, m, v, j as usize, term));
    let k = t.inbox.len() + v;
    assert(m[k] == x[v as int]);
    assert(granted_reply(m[k], v, o, term));
    assert(vote_on_record(t.nodes, m, v, o, term));
}

/// The live leaders of a term number at most one, in a safe simulation.
pub proof fn lemma_leaders_in_term_at_most_one(s: SimulationView, term: u64)
    requires
        s.safe(),
    ensures
        s.leaders_in_term(term).len() <= 1,
{
    lemma_leaders_below(s, term, s.nodes.len());
}

proof fn lemma_leaders_below(s: SimulationView, term: u64, k: nat)
    requires
        s.safe(),
        k <= s.nodes.len(),
    ensures
        s.leaders_in_term_below(term, k).len() <= 1,
        s.leaders_in_term_below(term, k).len() == 1 ==> exists|j: int|
            0 <= j < k && s.nodes[j].role == Role::Leader && s.nodes[j].current_term == term,
    decreases k,
{
    reveal(SimulationView::safe);
    if k > 0 {
        lemma_leaders_below(s, term, (k - 1) as nat);
        let node = s.nodes[k - 1];
        let rest = s.leaders_in_term_below(term, (k - 1) as nat);
        if node.alive && node.role == Role::Leader && node.current_term == term && rest.len() == 1 {
            let j = choose|j: int|
                0 <= j < k - 1 && s.nodes[j].role == Role::Leader && s.nodes[j].current_term == term;
            lemma_one_leader_per_term(s, j, k - 1);
        }
    }
}

} // verus!
