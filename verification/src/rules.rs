//! What each operation does, stated over its inputs and results: the
//! relations a correct simulation keeps whatever its code looks like.

use crate::invariants::{lemma_send_heartbeats, lemma_wf_nodes};
use crate::message::{EnvelopeView, LogEntryView, MessageView};
use crate::model::SimulationView;
use crate::node::Role;
use vstd::prelude::*;

verus! {

/// A quorum is a strict majority, and the smallest one: twice a quorum
/// exceeds the cluster, while one node fewer is at most half of it.
pub proof fn lemma_quorum_is_smallest_majority(s: SimulationView)
    ensures
        2 * s.quorum() > s.nodes.len(),
        2 * (s.quorum() - 1) <= s.nodes.len(),
{
}

/// The leader that queries and client requests see is the first node, in
/// node order, that is alive and leads; there is none exactly when no live
/// node leads.
pub proof fn lemma_leader_is_first_live_leader(s: SimulationView)
    ensures
        s.leader_index() matches Some(k) ==> {
            &&& 0 <= k < s.nodes.len()
            &&& s.nodes[k].alive
            &&& s.nodes[k].role == Role::Leader
            &&& forall|j: int| 0 <= j < k ==> !(s.nodes[j].alive && s.nodes[j].role == Role::Leader)
        },
        s.leader_index() is None <==> forall|j: int|
            0 <= j < s.nodes.len() ==> !(s.nodes[j].alive && #[trigger] s.nodes[j].role == Role::Leader),
{
    s.lemma_leader_index();
    if s.leader_index() is None {
        assert forall|j: int| 0 <= j < s.nodes.len() implies !(s.nodes[j].alive && #[trigger] s.nodes[j].role
            == Role::Leader) by {
            assert(!s.is_live_leader(j));
        }
    } else {
        let k = s.leader_index().unwrap();
        assert forall|j: int| 0 <= j < k implies !(s.nodes[j].alive && s.nodes[j].role == Role::Leader) by {
            assert(!s.is_live_leader(j));
        }
    }
}

/// Killing a node only marks it dead: it keeps its role, term, vote, log
/// and commit index, and no other node changes.
pub proof fn lemma_killed_node_only_dies(s: SimulationView, id: usize)
    requires
        id < s.nodes.len(),
    ensures
        ({
            let t = s.kill(id);
            let before = s.nodes[id as int];
            let after = t.nodes[id as int];
            &&& t.nodes.len() == s.nodes.len()
            &&& !after.alive
            &&& after.role == before.role
            &&& after.current_term == before.current_term
            &&& after.voted_for == before.voted_for
            &&& after.log == before.log
            &&& after.commit_index == before.commit_index
            &&& forall|j: int| 0 <= j < s.nodes.len() && j != id ==> t.nodes[j] == s.nodes[j]
            &&& t.inbox == s.inbox
        }),
{
}

/// A client request goes to the first live leader: its log grows by one
/// entry, of its current term, carrying the command, and nothing else
/// changes in any node's log or term. Without a live leader nothing
/// changes at all.
pub proof fn lemma_request_appends_at_leader(s: SimulationView, command: Seq<char>)
    requires
        s.wf(),
    ensures
        ({
            let t = s.submit(command);
            &&& t.nodes.len() == s.nodes.len()
            &&& (forall|j: int| 0 <= j < s.nodes.len() ==> !(s.nodes[j].alive && #[trigger] s.nodes[j].role
                == Role::Leader)) ==> t == s
            &&& forall|k: int|
                0 <= k < s.nodes.len() && s.nodes[k].alive && s.nodes[k].role == Role::Leader && (forall|j: int|
                    0 <= j < k ==> !(s.nodes[j].alive && s.nodes[j].role == Role::Leader)) ==> {
                    &&& #[trigger] t.nodes[k].log == s.nodes[k].log.push(
                        LogEntryView { term: s.nodes[k].current_term, command },
                    )
                    &&& t.nodes[k].current_term == s.nodes[k].current_term
                    &&& t.nodes[k].role == Role::Leader
                    &&& forall|j: int| 0 <= j < s.nodes.len() && j != k ==> t.nodes[j] == s.nodes[j]
                }
        }),
{
    lemma_leader_is_first_live_leader(s);
    s.lemma_leader_index();
    if let Some(pos) = s.leader_index() {
        lemma_wf_nodes(s, pos);
        assert forall|k: int|
            0 <= k < s.nodes.len() && s.nodes[k].alive && s.nodes[k].role == Role::Leader && (forall|j: int|
                0 <= j < k ==> !(s.nodes[j].alive && s.nodes[j].role == Role::Leader)) implies k == pos by {
            if k < pos {
                assert(!(s.nodes[k].alive && s.nodes[k].role == Role::Leader));
            }
            if pos < k {
                assert(!(s.nodes[pos].alive && s.nodes[pos].role == Role::Leader));
            }
        }
    } else {
        assert forall|k: int|
            0 <= k < s.nodes.len() && s.nodes[k].alive && s.nodes[k].role == Role::Leader implies false by {
            assert(!(s.nodes[k].alive && s.nodes[k].role == Role::Leader));
        }
    }
}

/// Calling an election: a live node moves to the next term, votes for
/// itself and counts its own vote alone, keeps its log, and is a candidate
/// afterwards, or already leader when its own vote is a strict majority
/// (a cluster of one). A dead node does nothing.
pub proof fn lemma_election_starts_next_term(s: SimulationView, id: usize)
    requires
        s.wf(),
        id < s.nodes.len(),
        s.nodes[id as int].current_term < u64::MAX,
    ensures
        ({
            let before = s.nodes[id as int];
            let after = s.start_election(id).nodes[id as int];
            &&& !before.alive ==> s.start_election(id) == s
            &&& before.alive ==> {
                &&& after.current_term == before.current_term + 1
                &&& after.voted_for == Some(id)
                &&& after.log == before.log
                &&& (s.nodes.len() > 1 ==> after.role == Role::Candidate && after.votes_received
                    == Set::<usize>::empty().insert(id))
                &&& (s.nodes.len() == 1 ==> after.role == Role::Leader)
            }
        }),
{
    let node = s.nodes[id as int];
    if node.alive {
        let term = (node.current_term + 1) as u64;
        let cand = crate::node::NodeView {
            role: Role::Candidate,
            current_term: term,
            voted_for: Some(id),
            votes_received: Set::empty().insert(id),
            ..node
        };
        lemma_wf_nodes(s, id as int);
        let s1 = s.with_node(id, cand);
        assert(s1.node_ok(id as int));
        crate::invariants::lemma_with_node(s, id, cand, 0);
        let s15 = s1.log_event(crate::text::election_text(id, term));
        crate::invariants::lemma_log_event(s1, crate::text::election_text(id, term), 0);
        let s2 = s15.reset_election_timer(id);
        crate::invariants::lemma_reset_election_timer(s15, id, 0);
        let request = MessageView::RequestVote {
            term,
            candidate_id: id,
            last_log_index: s2.nodes[id as int].log.len() as usize,
            last_log_term: s2.nodes[id as int].last_log_term(),
        };
        let s3 = s2.send_to_peers_below(id, request, s2.nodes.len());
        crate::invariants::lemma_send_to_peers(s2, id, request, s2.nodes.len(), u64::MAX as int);
        assert(s3.nodes[id as int] == s2.nodes[id as int]);
        assert(s3.nodes[id as int].votes_received.len() == 1) by {
            assert(Set::<usize>::empty().insert(id).len() == 1);
        }
        if s.nodes.len() == 1 {
            assert(s3.quorum() == 1);
            assert(s3.nodes[id as int].role == Role::Candidate);
            lemma_new_leader_bookkeeping(s3, id);
        } else {
            assert(s3.quorum() >= 2);
        }
    }
}

/// A reply to an AppendEntries, at a live leader of the reply's term:
/// success records the follower's match index and points its next index
/// just past it; failure backs the next index off by one, never below one.
/// A reply of a higher term makes the leader a follower of that term.
pub proof fn lemma_reply_moves_next_index(
    s: SimulationView,
    id: usize,
    term: u64,
    success: bool,
    follower_id: usize,
    match_index: usize,
)
    requires
        s.wf(),
        id < s.nodes.len(),
        follower_id < s.nodes.len(),
        match_index < usize::MAX,
    ensures
        ({
            let before = s.nodes[id as int];
            let after = s.handle_append_entries_reply(id, term, success, follower_id, match_index).nodes[id as int];
            &&& before.alive && term > before.current_term ==> after.role == Role::Follower
                && after.current_term == term
            &&& before.alive && before.role == Role::Leader && term == before.current_term && success ==> {
                &&& after.match_index[follower_id as int] == match_index
                &&& after.next_index[follower_id as int] == match_index + 1
                &&& after.role == Role::Leader
            }
            &&& before.alive && before.role == Role::Leader && term == before.current_term && !success
                ==> {
                &&& before.next_index[follower_id as int] > 1 ==> after.next_index[follower_id as int]
                    == before.next_index[follower_id as int] - 1
                &&& before.next_index[follower_id as int] <= 1 ==> after.next_index[follower_id as int]
                    == before.next_index[follower_id as int]
                &&& after.match_index == before.match_index
            }
        }),
{
    lemma_wf_nodes(s, id as int);
}

/// A node taking office as leader of its term: it leads, keeps its term
/// and log, points every next index just past its log, and knows of no
/// follower's progress yet, only that it holds its own log.
pub proof fn lemma_new_leader_bookkeeping(s: SimulationView, id: usize)
    requires
        s.wf(),
        id < s.nodes.len(),
        s.nodes[id as int].role == Role::Candidate,
    ensures
        ({
            let before = s.nodes[id as int];
            let after = s.become_leader(id).nodes[id as int];
            let n = s.nodes.len();
            &&& after.role == Role::Leader
            &&& after.current_term == before.current_term
            &&& after.voted_for == before.voted_for
            &&& after.log == before.log
            &&& forall|p: int| 0 <= p < n ==> #[trigger] after.next_index[p] == before.log.len() + 1
            &&& forall|p: int| 0 <= p < n && p != id ==> #[trigger] after.match_index[p] == 0
            &&& after.match_index[id as int] == before.log.len()
        }),
{
    let node = s.nodes[id as int];
    let len = node.log.len();
    let n = s.nodes.len();
    let leader = crate::node::NodeView {
        role: Role::Leader,
        next_index: Seq::new(n, |k: int| (len + 1) as usize),
        match_index: Seq::new(n, |k: int| 0usize).update(id as int, len as usize),
        ..node
    };
    lemma_wf_nodes(s, id as int);
    let s1 = s.with_node(id, leader);
    assert(s1.node_ok(id as int));
    crate::invariants::lemma_with_node(s, id, leader, 0);
    let s15 = s1.log_event(crate::text::leader_text(id, node.current_term));
    crate::invariants::lemma_log_event(s1, crate::text::leader_text(id, node.current_term), 0);
    lemma_send_heartbeats(s15, id, 0);
}

proof fn lemma_heartbeats_sent(s: SimulationView, id: usize, k: nat)
    requires
        s.wf(),
        id < s.nodes.len(),
        k <= s.nodes.len(),
        s.nodes[id as int].role == Role::Leader,
    ensures
        ({
            let t = s.heartbeats_below(id, k);
            &&& t.nodes == s.nodes
            &&& t.inbox.len() >= s.inbox.len()
            &&& t.inbox.take(s.inbox.len() as int) == s.inbox
            &&& forall|m: int|
                #![trigger t.inbox[m]]
                s.inbox.len() <= m < t.inbox.len() ==> exists|p: usize|
                    #![trigger s.heartbeat_message(id, p)]
                    p < k && p != id && s.nodes[p as int].alive && t.inbox[m].to == p
                        && t.inbox[m].message == s.heartbeat_message(id, p)
            &&& forall|p: usize|
                p < k && p != id && #[trigger] s.nodes[p as int].alive ==> exists|m: int|
                    s.inbox.len() <= m < t.inbox.len() && t.inbox[m].to == p && #[trigger] t.inbox[m].message
                        == s.heartbeat_message(id, p)
        }),
    decreases k,
{
    crate::invariants::lemma_heartbeats(s, id, k, 0);
    lemma_wf_nodes(s, id as int);
    if k > 0 {
        let k1 = (k - 1) as nat;
        lemma_heartbeats_sent(s, id, k1);
        let u = s.heartbeats_below(id, k1);
        let t = s.heartbeats_below(id, k);
        let p0 = k1 as usize;
        if p0 != id && s.nodes[p0 as int].alive {
            assert(t.inbox == u.inbox.push(t.inbox.last()));
            assert(t.inbox.take(s.inbox.len() as int) =~= u.inbox.take(s.inbox.len() as int));
            assert forall|m: int|
                #![trigger t.inbox[m]]
                s.inbox.len() <= m < t.inbox.len() implies exists|p: usize|
                    #![trigger s.heartbeat_message(id, p)]
                    p < k && p != id && s.nodes[p as int].alive && t.inbox[m].to == p
                        && t.inbox[m].message == s.heartbeat_message(id, p) by {
                if m < u.inbox.len() {
                    assert(t.inbox[m] == u.inbox[m]);
                    let p = choose|p: usize|
                        #![trigger s.heartbeat_message(id, p)]
                        p < k1 && p != id && s.nodes[p as int].alive && u.inbox[m].to == p
                            && u.inbox[m].message == s.heartbeat_message(id, p);
                    assert(s.heartbeat_message(id, p) == s.heartbeat_message(id, p));
                } else {
                    assert(s.heartbeat_message(id, p0) == s.heartbeat_message(id, p0));
                }
            }
            assert forall|p: usize|
                p < k && p != id && #[trigger] s.nodes[p as int].alive implies exists|m: int|
                    s.inbox.len() <= m < t.inbox.len() && t.inbox[m].to == p && #[trigger] t.inbox[m].message
                        == s.heartbeat_message(id, p) by {
                if p < k1 {
                    let m = choose|m: int|
                        s.inbox.len() <= m < u.inbox.len() && u.inbox[m].to == p && #[trigger] u.inbox[m].message
                            == s.heartbeat_message(id, p);
                    assert(t.inbox[m] == u.inbox[m]);
                } else {
                    let m = u.inbox.len() as int;
                    assert(t.inbox[m].message == s.heartbeat_message(id, p));
                }
            }
        } else {
            assert(u.nodes[p0 as int] == s.nodes[p0 as int]);
            if p0 != id {
                assert(!u.nodes[p0 as int].alive);
                assert(u.send(id, p0, s.heartbeat_message(id, p0)) == u);
                assert(t == u.send(id, p0, s.heartbeat_message(id, p0)));
            } else {
                assert(t == u);
            }
        }
    } else {
        assert(s.inbox.take(s.inbox.len() as int) =~= s.inbox);
    }
}

/// A leader's heartbeat round: every live peer gets one AppendEntries of
/// the leader's term, carrying the leader's log from the peer's next index
/// on, the index and term of the entry just before it (0 and 0 before the
/// first entry), and the leader's commit index; nothing else is sent, the
/// messages already on the bus stay, and no node changes. A node that is
/// not a live leader sends nothing.
pub proof fn lemma_heartbeats_carry_the_log(s: SimulationView, id: usize)
    requires
        s.wf(),
        id < s.nodes.len(),
    ensures
        ({
            let t = s.send_heartbeats(id);
            let node = s.nodes[id as int];
            &&& t.nodes == s.nodes
            &&& !(node.alive && node.role == Role::Leader) ==> t == s
            &&& t.inbox.len() >= s.inbox.len()
            &&& t.inbox.take(s.inbox.len() as int) == s.inbox
            &&& forall|m: int|
                #![trigger t.inbox[m]]
                s.inbox.len() <= m < t.inbox.len() ==> {
                    let p = t.inbox[m].to;
                    &&& p < s.nodes.len()
                    &&& p != id
                    &&& s.nodes[p as int].alive
                }
            &&& forall|m: int|
                #![trigger t.inbox[m]]
                s.inbox.len() <= m < t.inbox.len() ==> {
                    let p = t.inbox[m].to;
                    let next = node.next_index[p as int];
                    t.inbox[m].message == (MessageView::AppendEntries {
                        term: node.current_term,
                        leader_id: id,
                        prev_log_index: (next - 1) as usize,
                        prev_log_term: if next > 1 {
                            node.log[next - 2].term
                        } else {
                            0
                        },
                        entries: node.log.subrange(next - 1, node.log.len() as int),
                        leader_commit: node.commit_index,
                    })
                }
            &&& node.alive && node.role == Role::Leader ==> forall|p: usize|
                p < s.nodes.len() && p != id && #[trigger] s.nodes[p as int].alive ==> exists|m: int|
                    s.inbox.len() <= m < t.inbox.len() && t.inbox[m].to == p
        }),
{
    let node = s.nodes[id as int];
    lemma_send_heartbeats(s, id, 0);
    if node.alive && node.role == Role::Leader {
        lemma_heartbeats_sent(s, id, s.nodes.len());
        lemma_wf_nodes(s, id as int);
        let t = s.send_heartbeats(id);
        assert forall|m: int|
            #![trigger t.inbox[m]]
            s.inbox.len() <= m < t.inbox.len() implies {
                let p = t.inbox[m].to;
                &&& p < s.nodes.len()
                &&& p != id
                &&& s.nodes[p as int].alive
                &&& t.inbox[m].message == (MessageView::AppendEntries {
                    term: node.current_term,
                    leader_id: id,
                    prev_log_index: (node.next_index[p as int] - 1) as usize,
                    prev_log_term: if node.next_index[p as int] > 1 {
                        node.log[node.next_index[p as int] - 2].term
                    } else {
                        0
                    },
                    entries: node.log.subrange(node.next_index[p as int] - 1, node.log.len() as int),
                    leader_commit: node.commit_index,
                })
            } by {
            let p = choose|p: usize|
                #![trigger s.heartbeat_message(id, p)]
                p < s.nodes.len() && p != id && s.nodes[p as int].alive && t.inbox[m].to == p
                    && t.inbox[m].message == s.heartbeat_message(id, p);
            let next = node.next_index[p as int];
            assert(1 <= next <= node.log.len() + 1);
            if next > node.log.len() {
                assert(node.log.subrange(next - 1, node.log.len() as int) =~= Seq::<LogEntryView>::empty());
            }
        }
        assert forall|p: usize|
            p < s.nodes.len() && p != id && #[trigger] s.nodes[p as int].alive implies exists|m: int|
                s.inbox.len() <= m < t.inbox.len() && t.inbox[m].to == p by {
            let m = choose|m: int|
                s.inbox.len() <= m < t.inbox.len() && t.inbox[m].to == p && #[trigger] t.inbox[m].message
                    == s.heartbeat_message(id, p);
        }
    } else {
        assert(s.inbox.take(s.inbox.len() as int) =~= s.inbox);
    }
}

/// A vote reply at its candidate: a reply of a higher term makes the node
/// a follower of that term with no vote; a granted vote of the candidate's
/// own term is counted, and makes it leader exactly when its count then
/// reaches a strict majority; a refused vote, a reply of another term, or
/// one reaching a node that is no longer a candidate changes nothing.
pub proof fn lemma_vote_reply_counts(s: SimulationView, id: usize, term: u64, vote_granted: bool, voter_id: usize)
    requires
        s.wf(),
        id < s.nodes.len(),
    ensures
        ({
            let before = s.nodes[id as int];
            let t = s.handle_request_vote_reply(id, term, vote_granted, voter_id);
            let after = t.nodes[id as int];
            let counted = before.votes_received.insert(voter_id);
            &&& !before.alive ==> t == s
            &&& before.alive && term > before.current_term ==> {
                &&& after.role == Role::Follower
                &&& after.current_term == term
                &&& after.voted_for is None
            }
            &&& before.alive && term <= before.current_term && (before.role != Role::Candidate || term
                < before.current_term || !vote_granted) ==> t == s
            &&& before.alive && before.role == Role::Candidate && term == before.current_term && vote_granted
                ==> {
                &&& after.votes_received == counted
                &&& after.current_term == before.current_term
                &&& after.log == before.log
                &&& 2 * counted.len() > s.nodes.len() ==> after.role == Role::Leader
                &&& 2 * counted.len() <= s.nodes.len() ==> after.role == Role::Candidate
            }
        }),
{
    let before = s.nodes[id as int];
    if before.alive && before.role == Role::Candidate && term == before.current_term && vote_granted {
        let counted = before.votes_received.insert(voter_id);
        let cnode = crate::node::NodeView { votes_received: counted, ..before };
        let s1 = s.with_node(id, cnode);
        lemma_wf_nodes(s, id as int);
        assert(s1.node_ok(id as int));
        crate::invariants::lemma_with_node(s, id, cnode, 0);
        if counted.len() >= s1.quorum() {
            lemma_new_leader_bookkeeping(s1, id);
            crate::invariants::lemma_become_leader(s1, id, 0);
            let b = s1.become_leader(id);
            let leader = crate::node::NodeView {
                role: Role::Leader,
                next_index: Seq::new(s.nodes.len(), |k: int| (cnode.log.len() + 1) as usize),
                match_index: Seq::new(s.nodes.len(), |k: int| 0usize).update(id as int, cnode.log.len() as usize),
                ..cnode
            };
            let s2 = s1.with_node(id, leader).log_event(crate::text::leader_text(id, cnode.current_term));
            lemma_wf_nodes(s1, id as int);
            assert(s1.with_node(id, leader).node_ok(id as int));
            crate::invariants::lemma_with_node(s1, id, leader, 0);
            crate::invariants::lemma_log_event(s1.with_node(id, leader), crate::text::leader_text(id, cnode.current_term), 0);
            lemma_send_heartbeats(s2, id, 0);
            assert(b.nodes[id as int].votes_received == counted);
        }
    }
}

proof fn lemma_peers_sent(s: SimulationView, from: usize, msg: MessageView, k: nat)
    requires
        k <= s.nodes.len(),
        s.nodes.len() <= usize::MAX,
    ensures
        ({
            let t = s.send_to_peers_below(from, msg, k);
            &&& t.nodes == s.nodes
            &&& t.inbox.len() >= s.inbox.len()
            &&& t.inbox.take(s.inbox.len() as int) == s.inbox
            &&& forall|m: int|
                #![trigger t.inbox[m]]
                s.inbox.len() <= m < t.inbox.len() ==> {
                    &&& t.inbox[m].to < k
                    &&& t.inbox[m].to != from
                    &&& s.nodes[t.inbox[m].to as int].alive
                    &&& t.inbox[m].message == msg
                }
            &&& forall|p: usize|
                p < k && p != from && #[trigger] s.nodes[p as int].alive ==> exists|m: int|
                    s.inbox.len() <= m < t.inbox.len() && #[trigger] t.inbox[m].to == p
        }),
    decreases k,
{
    if k == 0 {
        assert(s.inbox.take(s.inbox.len() as int) =~= s.inbox);
    } else {
        let k1 = (k - 1) as nat;
        lemma_peers_sent(s, from, msg, k1);
        let u = s.send_to_peers_below(from, msg, k1);
        let t = s.send_to_peers_below(from, msg, k);
        if k1 != from && u.nodes[k1 as int].alive {
            assert(t.inbox == u.inbox.push(t.inbox.last()));
            assert(t.inbox.take(s.inbox.len() as int) =~= u.inbox.take(s.inbox.len() as int));
            assert forall|m: int|
                #![trigger t.inbox[m]]
                s.inbox.len() <= m < t.inbox.len() implies {
                    &&& t.inbox[m].to < k
                    &&& t.inbox[m].to != from
                    &&& s.nodes[t.inbox[m].to as int].alive
                    &&& t.inbox[m].message == msg
                } by {
                if m < u.inbox.len() {
                    assert(t.inbox[m] == u.inbox[m]);
                }
            }
            assert forall|p: usize|
                p < k && p != from && #[trigger] s.nodes[p as int].alive implies exists|m: int|
                    s.inbox.len() <= m < t.inbox.len() && #[trigger] t.inbox[m].to == p by {
                if p < k1 {
                    let m = choose|m: int| s.inbox.len() <= m < u.inbox.len() && #[trigger] u.inbox[m].to == p;
                    assert(t.inbox[m] == u.inbox[m]);
                } else {
                    assert(t.inbox[u.inbox.len() as int].to == p);
                }
            }
        } else {
            assert(t == u);
        }
    }
}

/// Calling an election in a cluster of more than one node asks every live
/// peer, once, for its vote in the next term, telling it the index and
/// term of the caller's last log entry (0 and 0 for an empty log); nothing
/// else is sent and the messages already on the bus stay.
pub proof fn lemma_election_asks_every_peer(s: SimulationView, id: usize)
    requires
        s.wf(),
        id < s.nodes.len(),
        s.nodes.len() > 1,
        s.nodes[id as int].alive,
        s.nodes[id as int].current_term < u64::MAX,
    ensures
        ({
            let node = s.nodes[id as int];
            let t = s.start_election(id);
            let request = MessageView::RequestVote {
                term: (node.current_term + 1) as u64,
                candidate_id: id,
                last_log_index: node.log.len() as usize,
                last_log_term: if node.log.len() == 0 {
                    0
                } else {
                    node.log[node.log.len() - 1].term
                },
            };
            &&& t.inbox.len() >= s.inbox.len()
            &&& t.inbox.take(s.inbox.len() as int) == s.inbox
            &&& forall|m: int|
                #![trigger t.inbox[m]]
                s.inbox.len() <= m < t.inbox.len() ==> {
                    &&& t.inbox[m].to < s.nodes.len()
                    &&& t.inbox[m].to != id
                    &&& s.nodes[t.inbox[m].to as int].alive
                    &&& t.inbox[m].message == request
                }
            &&& forall|p: usize|
                p < s.nodes.len() && p != id && #[trigger] s.nodes[p as int].alive ==> exists|m: int|
                    s.inbox.len() <= m < t.inbox.len() && #[trigger] t.inbox[m].to == p
        }),
{
    let node = s.nodes[id as int];
    let term = (node.current_term + 1) as u64;
    let cand = crate::node::NodeView {
        role: Role::Candidate,
        current_term: term,
        voted_for: Some(id),
        votes_received: Set::empty().insert(id),
        ..node
    };
    lemma_wf_nodes(s, id as int);
    let s1 = s.with_node(id, cand);
    let s15 = s1.log_event(crate::text::election_text(id, term));
    let s2 = s15.reset_election_timer(id);
    let request = MessageView::RequestVote {
        term,
        candidate_id: id,
        last_log_index: s2.nodes[id as int].log.len() as usize,
        last_log_term: s2.nodes[id as int].last_log_term(),
    };
    lemma_peers_sent(s2, id, request, s2.nodes.len());
    let s3 = s2.send_to_peers_below(id, request, s2.nodes.len());
    assert(s3.nodes[id as int].votes_received.len() == 1) by {
        assert(Set::<usize>::empty().insert(id).len() == 1);
    }
    assert(s3.quorum() >= 2);
    assert(s.start_election(id) == s3);
    assert(s2.inbox == s.inbox);
    assert(s2.nodes.len() == s.nodes.len());
    assert(s2.nodes[id as int].log == node.log);
    assert(request == MessageView::RequestVote {
        term: (node.current_term + 1) as u64,
        candidate_id: id,
        last_log_index: node.log.len() as usize,
        last_log_term: if node.log.len() == 0 {
            0
        } else {
            node.log[node.log.len() - 1].term
        },
    });
    assert forall|p: int| 0 <= p < s.nodes.len() implies #[trigger] s2.nodes[p].alive == s.nodes[p].alive by {}
    let t = s3;
    assert forall|m: int|
        #![trigger t.inbox[m]]
        s.inbox.len() <= m < t.inbox.len() implies s.nodes[t.inbox[m].to as int].alive by {
        assert(s2.nodes[t.inbox[m].to as int].alive);
    }
    assert forall|p: usize|
        p < s.nodes.len() && p != id && #[trigger] s.nodes[p as int].alive implies exists|m: int|
            s.inbox.len() <= m < t.inbox.len() && #[trigger] t.inbox[m].to == p by {
        assert(s2.nodes[p as int].alive);
    }
}

/// `t` differs from `s` on the bus only by messages put on it after all of
/// `s`'s, each due `network_delay` ticks after the current tick, which is
/// the same in both.
pub open spec fn sends_only(s: SimulationView, t: SimulationView) -> bool {
    &&& t.tick == s.tick
    &&& t.network_delay == s.network_delay
    &&& t.inbox.len() >= s.inbox.len()
    &&& t.inbox.take(s.inbox.len() as int) == s.inbox
    &&& forall|m: int|
        s.inbox.len() <= m < t.inbox.len() ==> #[trigger] t.inbox[m].deliver_at == (s.tick
            + s.network_delay) as u64
}

proof fn lemma_sends_only_same(s: SimulationView, t: SimulationView)
    requires
        t.tick == s.tick,
        t.network_delay == s.network_delay,
        t.inbox == s.inbox,
    ensures
        sends_only(s, t),
{
    assert(s.inbox.take(s.inbox.len() as int) =~= s.inbox);
}

proof fn lemma_sends_only_trans(a: SimulationView, b: SimulationView, c: SimulationView)
    requires
        sends_only(a, b),
        sends_only(b, c),
    ensures
        sends_only(a, c),
{
    assert(c.inbox.take(a.inbox.len() as int) =~= c.inbox.take(b.inbox.len() as int).take(a.inbox.len() as int));
    assert forall|m: int| a.inbox.len() <= m < c.inbox.len() implies #[trigger] c.inbox[m].deliver_at == (a.tick
        + a.network_delay) as u64 by {
        if m < b.inbox.len() {
            assert(c.inbox[m] == c.inbox.take(b.inbox.len() as int)[m]);
            assert(b.inbox[m].deliver_at == (a.tick + a.network_delay) as u64);
        }
    }
}

proof fn lemma_sends_only_send(s: SimulationView, from: usize, to: usize, m: MessageView)
    ensures
        sends_only(s, s.send(from, to, m)),
{
    let t = s.send(from, to, m);
    if s.nodes[to as int].alive {
        assert(t.inbox.take(s.inbox.len() as int) =~= s.inbox);
    } else {
        lemma_sends_only_same(s, t);
    }
}

proof fn lemma_sends_only_peers(s: SimulationView, from: usize, m: MessageView, k: nat)
    ensures
        sends_only(s, s.send_to_peers_below(from, m, k)),
    decreases k,
{
    if k == 0 {
        lemma_sends_only_same(s, s);
    } else {
        let u = s.send_to_peers_below(from, m, (k - 1) as nat);
        lemma_sends_only_peers(s, from, m, (k - 1) as nat);
        if k - 1 != from {
            lemma_sends_only_send(u, from, (k - 1) as usize, m);
            lemma_sends_only_trans(s, u, s.send_to_peers_below(from, m, k));
        }
    }
}

proof fn lemma_sends_only_heartbeats(s: SimulationView, id: usize, k: nat)
    ensures
        sends_only(s, s.heartbeats_below(id, k)),
    decreases k,
{
    if k == 0 {
        lemma_sends_only_same(s, s);
    } else {
        let u = s.heartbeats_below(id, (k - 1) as nat);
        lemma_sends_only_heartbeats(s, id, (k - 1) as nat);
        if k - 1 != id {
            lemma_sends_only_send(u, id, (k - 1) as usize, s.heartbeat_message(id, (k - 1) as usize));
            lemma_sends_only_trans(s, u, s.heartbeats_below(id, k));
        }
    }
}

proof fn lemma_sends_only_send_heartbeats(s: SimulationView, id: usize)
    ensures
        sends_only(s, s.send_heartbeats(id)),
{
    let node = s.nodes[id as int];
    if !node.alive || node.role != Role::Leader {
        lemma_sends_only_same(s, s);
    } else {
        lemma_sends_only_heartbeats(s, id, s.nodes.len());
    }
}

proof fn lemma_sends_only_become_leader(s: SimulationView, id: usize)
    ensures
        sends_only(s, s.become_leader(id)),
{
    let node = s.nodes[id as int];
    let len = node.log.len();
    let n = s.nodes.len();
    let s1 = s.with_node(
        id,
        crate::node::NodeView {
            role: Role::Leader,
            next_index: Seq::new(n, |i: int| (len + 1) as usize),
            match_index: Seq::new(n, |i: int| 0usize).update(id as int, len as usize),
            ..node
        },
    );
    let s15 = s1.log_event(crate::text::leader_text(id, node.current_term));
    lemma_sends_only_same(s, s15);
    let s2 = s15.send_heartbeats(id);
    lemma_sends_only_send_heartbeats(s15, id);
    lemma_sends_only_trans(s, s15, s2);
    let t = s.become_leader(id);
    lemma_sends_only_same(s2, t);
    lemma_sends_only_trans(s, s2, t);
}

proof fn lemma_sends_only_start_election(s: SimulationView, id: usize)
    ensures
        sends_only(s, s.start_election(id)),
{
    let node = s.nodes[id as int];
    if !node.alive {
        lemma_sends_only_same(s, s);
    } else {
        let term = (node.current_term + 1) as u64;
        let s1 = s.with_node(
            id,
            crate::node::NodeView {
                role: Role::Candidate,
                current_term: term,
                voted_for: Some(id),
                votes_received: Set::empty().insert(id),
                ..node
            },
        );
        let s2 = s1.log_event(crate::text::election_text(id, term)).reset_election_timer(id);
        lemma_sends_only_same(s, s2);
        let request = MessageView::RequestVote {
            term,
            candidate_id: id,
            last_log_index: s2.nodes[id as int].log.len() as usize,
            last_log_term: s2.nodes[id as int].last_log_term(),
        };
        let s3 = s2.send_to_peers_below(id, request, s2.nodes.len());
        lemma_sends_only_peers(s2, id, request, s2.nodes.len());
        lemma_sends_only_trans(s, s2, s3);
        if s3.nodes[id as int].votes_received.len() >= s3.quorum() {
            lemma_sends_only_become_leader(s3, id);
            lemma_sends_only_trans(s, s3, s3.become_leader(id));
        }
    }
}

proof fn lemma_sends_only_deliver(s: SimulationView, env: EnvelopeView)
    ensures
        sends_only(s, s.deliver(env)),
{
    match env.message {
        MessageView::RequestVote { term, candidate_id, last_log_index, last_log_term } => {
            let id = env.to;
            let node0 = s.nodes[id as int];
            if !node0.alive {
                lemma_sends_only_same(s, s);
            } else {
                let s1 = if term > node0.current_term {
                    s.with_node(id, node0.become_follower(term))
                } else {
                    s
                };
                let node = s1.nodes[id as int];
                let grant = term >= node.current_term && node.up_to_date(last_log_term, last_log_index as int)
                    && (node.voted_for is None || node.voted_for == Some(candidate_id));
                let s2 = if grant {
                    s1.with_node(id, crate::node::NodeView { voted_for: Some(candidate_id), ..node }).reset_election_timer(id)
                } else {
                    s1
                };
                let s3 = s2.log_event(crate::text::vote_text(id, grant, candidate_id, s2.nodes[id as int].current_term));
                lemma_sends_only_same(s, s3);
                lemma_sends_only_send(
                    s3,
                    id,
                    candidate_id,
                    MessageView::RequestVoteReply {
                        term: s2.nodes[id as int].current_term,
                        vote_granted: grant,
                        voter_id: id,
                    },
                );
                lemma_sends_only_trans(s, s3, s.deliver(env));
            }
        },
        MessageView::RequestVoteReply { term, vote_granted, voter_id } => {
            let id = env.to;
            let node = s.nodes[id as int];
            if node.alive && term <= node.current_term && node.role == Role::Candidate && term
                == node.current_term && vote_granted {
                let s1 = s.with_node(
                    id,
                    crate::node::NodeView { votes_received: node.votes_received.insert(voter_id), ..node },
                );
                lemma_sends_only_same(s, s1);
                if s1.nodes[id as int].votes_received.len() >= s1.quorum() {
                    lemma_sends_only_become_leader(s1, id);
                    lemma_sends_only_trans(s, s1, s1.become_leader(id));
                }
            } else {
                lemma_sends_only_same(s, s.deliver(env));
            }
        },
        MessageView::AppendEntries { term, leader_id, prev_log_index, prev_log_term, entries, leader_commit } => {
            let id = env.to;
            let node0 = s.nodes[id as int];
            if !node0.alive {
                lemma_sends_only_same(s, s);
            } else if term < node0.current_term {
                lemma_sends_only_send(
                    s,
                    id,
                    leader_id,
                    MessageView::AppendEntriesReply {
                        term: node0.current_term,
                        success: false,
                        follower_id: id,
                        match_index: 0,
                    },
                );
            } else {
                let node1 = if term > node0.current_term {
                    crate::node::NodeView { role: Role::Follower, current_term: term, voted_for: None, ..node0 }
                } else {
                    crate::node::NodeView { role: Role::Follower, ..node0 }
                };
                let s1 = s.with_node(id, node1).reset_election_timer(id);
                let node = s1.nodes[id as int];
                let success = prev_log_index > 0 ==> (prev_log_index <= node.log.len()
                    && node.log[prev_log_index - 1].term == prev_log_term);
                if success {
                    let log = crate::model::merge_entries(node.log, prev_log_index as int, entries);
                    let commit_index = if leader_commit > node.commit_index {
                        if leader_commit <= log.len() {
                            leader_commit
                        } else {
                            log.len() as usize
                        }
                    } else {
                        node.commit_index
                    };
                    let s2 = s1.with_node(id, crate::node::NodeView { log, commit_index, ..node });
                    lemma_sends_only_same(s, s2);
                    lemma_sends_only_send(
                        s2,
                        id,
                        leader_id,
                        MessageView::AppendEntriesReply {
                            term,
                            success: true,
                            follower_id: id,
                            match_index: (prev_log_index + entries.len()) as usize,
                        },
                    );
                    lemma_sends_only_trans(s, s2, s.deliver(env));
                } else {
                    lemma_sends_only_same(s, s1);
                    lemma_sends_only_send(
                        s1,
                        id,
                        leader_id,
                        MessageView::AppendEntriesReply {
                            term,
                            success: false,
                            follower_id: id,
                            match_index: 0,
                        },
                    );
                    lemma_sends_only_trans(s, s1, s.deliver(env));
                }
            }
        },
        MessageView::AppendEntriesReply { term, success, follower_id, match_index } => {
            lemma_sends_only_same(s, s.deliver(env));
        },
    }
}

proof fn lemma_sends_only_deliver_all(s: SimulationView, msgs: Seq<EnvelopeView>)
    ensures
        sends_only(s, s.deliver_all(msgs)),
    decreases msgs.len(),
{
    if msgs.len() == 0 {
        lemma_sends_only_same(s, s);
    } else {
        let u = s.deliver_all(msgs.drop_last());
        lemma_sends_only_deliver_all(s, msgs.drop_last());
        lemma_sends_only_deliver(u, msgs.last());
        lemma_sends_only_trans(s, u, s.deliver_all(msgs));
    }
}

proof fn lemma_sends_only_elections(s: SimulationView, k: nat)
    ensures
        sends_only(s, s.elections_below(k)),
    decreases k,
{
    if k == 0 {
        lemma_sends_only_same(s, s);
    } else {
        let u = s.elections_below((k - 1) as nat);
        lemma_sends_only_elections(s, (k - 1) as nat);
        if u.election_due(k - 1) {
            lemma_sends_only_start_election(u, (k - 1) as usize);
            lemma_sends_only_trans(s, u, s.elections_below(k));
        }
    }
}

proof fn lemma_sends_only_heartbeat_rounds(s: SimulationView, k: nat)
    ensures
        sends_only(s, s.heartbeat_rounds_below(k)),
    decreases k,
{
    if k == 0 {
        lemma_sends_only_same(s, s);
    } else {
        let u = s.heartbeat_rounds_below((k - 1) as nat);
        lemma_sends_only_heartbeat_rounds(s, (k - 1) as nat);
        let i = k - 1;
        if u.heartbeat_due(i) {
            let v = u.send_heartbeats(i as usize);
            lemma_sends_only_send_heartbeats(u, i as usize);
            lemma_sends_only_trans(s, u, v);
            lemma_sends_only_same(v, s.heartbeat_rounds_below(k));
            lemma_sends_only_trans(s, v, s.heartbeat_rounds_below(k));
        }
    }
}

/// A tick moves the clock on by one and hands out every message due by the
/// new tick: afterwards the bus holds, first and in their old order, exactly
/// the messages that were due later, and then only messages sent during the
/// tick, each due `network_delay` ticks after it. No message that was due
/// stays on the bus.
pub proof fn lemma_step_delivers_what_is_due(s: SimulationView)
    ensures
        ({
            let t = s.step();
            let now = (s.tick + 1) as u64;
            let later = s.inbox.filter(|e: EnvelopeView| e.deliver_at > now);
            &&& t.tick == now
            &&& t.inbox.len() >= later.len()
            &&& t.inbox.take(later.len() as int) == later
            &&& forall|m: int|
                later.len() <= m < t.inbox.len() ==> #[trigger] t.inbox[m].deliver_at == (now
                    + s.network_delay) as u64
        }),
{
    let now = (s.tick + 1) as u64;
    let s1 = SimulationView { tick: now, inbox: SimulationView::pending_at(s.inbox, now), ..s };
    let s2 = s1.deliver_all(SimulationView::due_at(s.inbox, now));
    lemma_sends_only_deliver_all(s1, SimulationView::due_at(s.inbox, now));
    let s3 = s2.elections_below(s2.nodes.len());
    lemma_sends_only_elections(s2, s2.nodes.len());
    lemma_sends_only_trans(s1, s2, s3);
    lemma_sends_only_heartbeat_rounds(s3, s3.nodes.len());
    lemma_sends_only_trans(s1, s3, s.step());
    assert(s1.inbox == s.inbox.filter(|e: EnvelopeView| e.deliver_at > now));
}

/// Raft's up-to-date check: a log ending in a higher term wins whatever its
/// length; on equal last terms the log with at least as many entries wins.
/// An empty log ends in term 0.
pub proof fn lemma_up_to_date_check(node: crate::node::NodeView, other_last_term: u64, other_last_index: int)
    ensures
        node.log.len() == 0 ==> node.last_log_term() == 0,
        node.log.len() > 0 ==> node.last_log_term() == node.log[node.log.len() - 1].term,
        node.last_log_index() == node.log.len(),
        other_last_term > node.last_log_term() ==> node.up_to_date(other_last_term, other_last_index),
        other_last_term < node.last_log_term() ==> !node.up_to_date(other_last_term, other_last_index),
        other_last_term == node.last_log_term() ==> (node.up_to_date(other_last_term, other_last_index)
            <==> other_last_index >= node.log.len()),
{
}

/// Stepping down to a follower of `term`: the node leads nothing, has no
/// vote and counts none, and keeps its log, commit index and liveness.
pub proof fn lemma_step_down(node: crate::node::NodeView, term: u64)
    ensures
        ({
            let f = node.become_follower(term);
            &&& f.role == Role::Follower
            &&& f.current_term == term
            &&& f.voted_for is None
            &&& f.votes_received.is_empty()
            &&& f.log == node.log
            &&& f.commit_index == node.commit_index
            &&& f.alive == node.alive
            &&& f.id == node.id
        }),
{
}

proof fn lemma_deadlines_drawn(s: SimulationView, k: nat)
    requires
        k <= s.nodes.len(),
        s.election_timeout_min == 150,
        s.election_timeout_max == 300,
    ensures
        forall|j: int|
            0 <= j < k ==> 150 <= #[trigger] s.deadlines_below(k).nodes[j].election_deadline <= 300,
    decreases k,
{
    crate::invariants::lemma_deadlines(s, k);
    if k > 0 {
        lemma_deadlines_drawn(s, (k - 1) as nat);
        crate::invariants::lemma_deadlines(s, (k - 1) as nat);
        let u = s.deadlines_below((k - 1) as nat);
        let x = crate::rng::scramble(crate::rng::xorshift(u.rng));
        assert(x % 151 < 151);
        assert(crate::rng::range_value(u.rng, 150, 300) <= 300);
        assert(crate::rng::range_value(u.rng, 150, 300) >= 150);
    }
}

/// A new cluster of `node_count` nodes: at tick 0, with no events and no
/// messages, every node `i` is a live follower with id `i`, in term 0, with
/// no vote, an empty log and nothing committed, next index 1 and match
/// index 0 for every node, and an election deadline between 150 and 300.
pub proof fn lemma_new_cluster(node_count: usize, seed: u64)
    ensures
        ({
            let s = SimulationView::initial(node_count, seed);
            &&& s.tick == 0
            &&& s.events.len() == 0
            &&& s.inbox.len() == 0
            &&& s.nodes.len() == node_count
            &&& forall|i: int|
                #![trigger s.nodes[i]]
                0 <= i < node_count ==> {
                    let node = s.nodes[i];
                    &&& node.id == i
                    &&& node.role == Role::Follower
                    &&& node.current_term == 0
                    &&& node.voted_for is None
                    &&& node.log.len() == 0
                    &&& node.commit_index == 0
                    &&& node.alive
                    &&& node.votes_received.is_empty()
                    &&& node.next_index.len() == node_count
                    &&& node.match_index.len() == node_count
                    &&& forall|p: int| 0 <= p < node_count ==> #[trigger] node.next_index[p] == 1
                    &&& forall|p: int| 0 <= p < node_count ==> #[trigger] node.match_index[p] == 0
                    &&& 150 <= node.election_deadline <= 300
                }
        }),
{
    let n = node_count as nat;
    let s0 = SimulationView {
        nodes: Seq::new(n, |i: int| crate::node::fresh_node(i as usize, n)),
        tick: 0,
        events: Seq::empty(),
        inbox: Seq::empty(),
        rng: crate::rng::seed_state(seed),
        election_timeout_min: 150,
        election_timeout_max: 300,
        heartbeat_interval: 50,
        network_delay: 10,
    };
    crate::invariants::lemma_deadlines(s0, n);
    lemma_deadlines_drawn(s0, n);
    let s = SimulationView::initial(node_count, seed);
    assert forall|i: int|
        #![trigger s.nodes[i]]
        0 <= i < node_count implies s.nodes[i].id == i && s.nodes[i].votes_received.is_empty() by {
        assert(s.nodes[i] == crate::node::NodeView {
            election_deadline: s.nodes[i].election_deadline,
            ..s0.nodes[i]
        });
    }
}

} // verus!
