//! Properties that the simulation promises across its operations.

use crate::message::{EnvelopeView, LogEntryView, MessageView};
use crate::model::{committable, highest_committable, merge_entries, merge_entry, SimulationView};
use crate::invariants::{lemma_send_heartbeats, lemma_step, lemma_wf_nodes};
use crate::node::{NodeView, Role};
use crate::safety::{lemma_one_leader_per_term, lemma_safe_step, vote_on_record};
use vstd::prelude::*;

verus! {

/// The term rule: a live node handed any message whose term is higher than
/// its own adopts that term and is a follower afterwards, whatever role it
/// held before.
pub proof fn lemma_higher_term_steps_down(s: SimulationView, env: EnvelopeView)
    requires
        env.to < s.nodes.len(),
        s.nodes[env.to as int].alive,
        env.message.term() > s.nodes[env.to as int].current_term,
    ensures
        s.deliver(env).nodes[env.to as int].role == Role::Follower,
        s.deliver(env).nodes[env.to as int].current_term == env.message.term(),
{
}

/// A term adopted from anything but a vote request starts without a vote:
/// a live node handed an AppendEntries or a reply of a higher term has
/// voted for no one in that term afterwards.
pub proof fn lemma_higher_term_clears_vote(s: SimulationView, env: EnvelopeView)
    requires
        env.to < s.nodes.len(),
        s.nodes[env.to as int].alive,
        env.message.term() > s.nodes[env.to as int].current_term,
        !(env.message is RequestVote),
    ensures
        s.deliver(env).nodes[env.to as int].voted_for is None,
{
}

/// A vote is granted only to a candidate whose log is at least as up to
/// date as the voter's, in a term no older than the voter's, and only when
/// the voter has not voted for someone else in that term; the voter then
/// records its vote.
pub proof fn lemma_vote_requires_up_to_date_log(
    s: SimulationView,
    to: usize,
    term: u64,
    candidate_id: usize,
    last_log_index: usize,
    last_log_term: u64,
)
    requires
        to < s.nodes.len(),
    ensures
        ({
            let t = s.handle_request_vote(to, term, candidate_id, last_log_index, last_log_term);
            let voter = s.nodes[to as int];
            let granted = t.inbox.len() > s.inbox.len() && t.inbox.last().message matches MessageView::RequestVoteReply {
                vote_granted: true,
                ..
            };
            granted ==> {
                &&& voter.alive
                &&& term >= voter.current_term
                &&& voter.up_to_date(last_log_term, last_log_index as int)
                &&& (term > voter.current_term || voter.voted_for is None || voter.voted_for == Some(
                    candidate_id,
                ))
                &&& t.nodes[to as int].voted_for == Some(candidate_id)
                &&& t.nodes[to as int].current_term == term
            }
        }),
{
}

/// One vote per term: a voter has at most one candidate on record in a term.
pub proof fn lemma_one_vote_per_term(s: SimulationView, voter: usize, c1: usize, c2: usize, term: u64)
    requires
        s.safe(),
        vote_on_record(s.nodes, s.inbox, voter, c1, term),
        vote_on_record(s.nodes, s.inbox, voter, c2, term),
    ensures
        c1 == c2,
{
    reveal(SimulationView::safe);
}

proof fn lemma_highest_committable_is_highest(
    node: crate::node::NodeView,
    id: int,
    n: nat,
    quorum: nat,
    idx: int,
)
    ensures
        ({
            let h = highest_committable(node, id, n, quorum, idx);
            &&& h > node.commit_index ==> committable(node, id, n, quorum, h) && h <= idx
            &&& forall|k: int| h < k <= idx && k > node.commit_index ==> !committable(node, id, n, quorum, k)
        }),
    decreases idx,
{
    if idx > node.commit_index && !committable(node, id, n, quorum, idx) {
        lemma_highest_committable_is_highest(node, id, n, quorum, idx - 1);
    }
}

/// The commit rule: a leader's commit index moves only to an index that a
/// strict majority of the cluster, the leader included, holds and whose
/// entry is from the leader's current term, and to the highest such index.
pub proof fn lemma_commit_needs_majority(s: SimulationView, id: usize)
    requires
        s.wf(),
        id < s.nodes.len(),
    ensures
        ({
            let node = s.nodes[id as int];
            let c = s.advance_commit_index(id).nodes[id as int].commit_index;
            &&& c >= node.commit_index
            &&& c != node.commit_index ==> {
                &&& c <= node.log.len()
                &&& committable(node, id as int, s.nodes.len(), s.quorum(), c as int)
                &&& node.log[c - 1].term == node.current_term
            }
            &&& forall|k: int|
                c < k <= node.log.len() && k > node.commit_index ==> !committable(
                    node,
                    id as int,
                    s.nodes.len(),
                    s.quorum(),
                    k,
                )
        }),
{
    let node = s.nodes[id as int];
    lemma_wf_nodes(s, id as int);
    lemma_highest_committable_is_highest(node, id as int, s.nodes.len(), s.quorum(), node.log.len() as int);
    crate::invariants::lemma_highest_committable_bounds(
        node,
        id as int,
        s.nodes.len(),
        s.quorum(),
        node.log.len() as int,
    );
}

/// A successful AppendEntries leaves the follower's log unchanged before
/// `prev_log_index`, and from there on holds an entry of the same term as
/// each entry sent.
pub proof fn lemma_append_matches_entries(
    log: Seq<LogEntryView>,
    prev_log_index: int,
    entries: Seq<LogEntryView>,
)
    requires
        0 <= prev_log_index <= log.len(),
    ensures
        ({
            let merged = merge_entries(log, prev_log_index, entries);
            &&& merged.len() >= prev_log_index + entries.len()
            &&& forall|i: int| 0 <= i < prev_log_index ==> merged[i] == log[i]
            &&& forall|i: int| 0 <= i < entries.len() ==> merged[prev_log_index + i].term == entries[i].term
        }),
    decreases entries.len(),
{
    if entries.len() > 0 {
        let next = merge_entry(log, prev_log_index, entries[0]);
        lemma_append_matches_entries(next, prev_log_index + 1, entries.drop_first());
        let merged = merge_entries(log, prev_log_index, entries);
        assert forall|i: int| 0 <= i < entries.len() implies merged[prev_log_index + i].term
            == entries[i].term by {
            if i > 0 {
                assert(entries.drop_first()[i - 1] == entries[i]);
                assert(merged[prev_log_index + 1 + (i - 1)].term == entries.drop_first()[i - 1].term);
            }
        }
    }
}

/// Entries that start at the end of the log are appended as they are.
pub proof fn lemma_merge_at_end(log: Seq<LogEntryView>, entries: Seq<LogEntryView>)
    ensures
        merge_entries(log, log.len() as int, entries) == log + entries,
    decreases entries.len(),
{
    if entries.len() > 0 {
        let next = log.push(entries[0]);
        lemma_merge_at_end(next, entries.drop_first());
        assert(next + entries.drop_first() =~= log + entries);
    }
}

/// An AppendEntries whose entries conflict with the log: the log is cut at
/// the first entry whose term differs from the log's at that position, and
/// the rest of the entries follow.
pub proof fn lemma_merge_cuts_at_first_conflict(
    log: Seq<LogEntryView>,
    idx: int,
    entries: Seq<LogEntryView>,
    j: int,
)
    requires
        0 <= idx <= log.len(),
        0 <= j < entries.len(),
        idx + j < log.len(),
        log[idx + j].term != entries[j].term,
        forall|k: int| 0 <= k < j ==> #[trigger] log[idx + k].term == entries[k].term,
    ensures
        merge_entries(log, idx, entries) == log.take(idx + j) + entries.skip(j),
    decreases entries.len(),
{
    if j == 0 {
        let next = log.take(idx).push(entries[0]);
        lemma_merge_at_end(next, entries.drop_first());
        assert(next + entries.drop_first() =~= log.take(idx) + entries.skip(0));
    } else {
        assert(log[idx + 0].term == entries[0].term);
        let rest = entries.drop_first();
        assert forall|k: int| 0 <= k < j - 1 implies #[trigger] log[idx + 1 + k].term == rest[k].term by {
            assert(log[idx + (k + 1)].term == entries[k + 1].term);
        }
        lemma_merge_cuts_at_first_conflict(log, idx + 1, rest, j - 1);
        assert(rest.skip(j - 1) =~= entries.skip(j));
    }
}

/// An AppendEntries that agrees with the log wherever both have an entry
/// leaves the log as it is, but for the entries past its end, which are
/// appended.
pub proof fn lemma_merge_without_conflict(log: Seq<LogEntryView>, idx: int, entries: Seq<LogEntryView>)
    requires
        0 <= idx <= log.len(),
        forall|k: int|
            0 <= k < entries.len() && idx + k < log.len() ==> #[trigger] log[idx + k].term
                == entries[k].term,
    ensures
        merge_entries(log, idx, entries) == if log.len() >= idx + entries.len() {
            log
        } else {
            log + entries.skip(log.len() - idx)
        },
    decreases entries.len(),
{
    if entries.len() > 0 {
        if idx == log.len() {
            lemma_merge_at_end(log, entries);
            assert(entries.skip(0) =~= entries);
        } else {
            assert(log[idx + 0].term == entries[0].term);
            let rest = entries.drop_first();
            assert forall|k: int| 0 <= k < rest.len() && idx + 1 + k < log.len() implies #[trigger] log[idx + 1 + k].term
                == rest[k].term by {
                assert(log[idx + (k + 1)].term == entries[k + 1].term);
            }
            lemma_merge_without_conflict(log, idx + 1, rest);
            if log.len() < idx + entries.len() {
                assert(rest.skip(log.len() - idx - 1) =~= entries.skip(log.len() - idx));
            }
        }
    }
}

/// Terms never go back: after a tick every node's term is at least what it was.
pub proof fn lemma_terms_never_decrease(s: SimulationView, i: int)
    requires
        s.wf(),
        s.terms_at_most(u64::MAX - 1),
        0 <= i < s.nodes.len(),
    ensures
        s.step().nodes[i].current_term >= s.nodes[i].current_term,
{
    lemma_step(s, u64::MAX - 1);
    assert(crate::model::node_evolves(s.nodes[i], s.step().nodes[i]));
}

/// A candidate that receives the vote that gives it a strict majority in
/// its term becomes leader of that term.
pub proof fn lemma_majority_elects(s: SimulationView, id: usize, voter_id: usize)
    requires
        s.wf(),
        id < s.nodes.len(),
        s.nodes[id as int].alive,
        s.nodes[id as int].role == Role::Candidate,
        s.nodes[id as int].votes_received.insert(voter_id).len() >= s.quorum(),
    ensures
        ({
            let node = s.nodes[id as int];
            let t = s.handle_request_vote_reply(id, node.current_term, true, voter_id);
            &&& t.nodes[id as int].role == Role::Leader
            &&& t.nodes[id as int].current_term == node.current_term
        }),
{
    let node = s.nodes[id as int];
    let counted = NodeView { votes_received: node.votes_received.insert(voter_id), ..node };
    let s1 = s.with_node(id, counted);
    let len = node.log.len();
    let n = s.nodes.len();
    let leader = NodeView {
        role: Role::Leader,
        next_index: Seq::new(n, |k: int| (len + 1) as usize),
        match_index: Seq::new(n, |k: int| 0usize).update(id as int, len as usize),
        ..counted
    };
    lemma_wf_nodes(s, id as int);
    assert(s1.node_ok(id as int));
    crate::invariants::lemma_with_node(s, id, counted, 0);
    let s2 = s1.with_node(id, leader);
    assert(s2.node_ok(id as int));
    crate::invariants::lemma_with_node(s1, id, leader, 0);
    let s3 = s2.log_event(crate::text::leader_text(id, node.current_term));
    crate::invariants::lemma_log_event(s2, crate::text::leader_text(id, node.current_term), 0);
    lemma_send_heartbeats(s3, id, 0);
}

/// In a cluster of one, a live node whose timer fires leads the next term at once.
pub proof fn lemma_single_node_wins(s: SimulationView)
    requires
        s.wf(),
        s.nodes.len() == 1,
        s.nodes[0].alive,
        s.nodes[0].current_term < u64::MAX,
    ensures
        s.start_election(0).nodes[0].role == Role::Leader,
        s.start_election(0).nodes[0].current_term == s.nodes[0].current_term + 1,
{
    let node = s.nodes[0];
    let term = (node.current_term + 1) as u64;
    let cand = NodeView {
        role: Role::Candidate,
        current_term: term,
        voted_for: Some(0usize),
        votes_received: Set::empty().insert(0usize),
        ..node
    };
    let s1 = s.with_node(0, cand);
    lemma_wf_nodes(s, 0);
    assert(s1.node_ok(0));
    crate::invariants::lemma_with_node(s, 0, cand, 0);
    let s15 = s1.log_event(crate::text::election_text(0, term));
    crate::invariants::lemma_log_event(s1, crate::text::election_text(0, term), 0);
    let s2 = s15.reset_election_timer(0);
    crate::invariants::lemma_reset_election_timer(s15, 0, 0);
    let request = MessageView::RequestVote {
        term,
        candidate_id: 0,
        last_log_index: s2.nodes[0].log.len() as usize,
        last_log_term: s2.nodes[0].last_log_term(),
    };
    crate::invariants::lemma_send_to_peers(s2, 0, request, 1, 0);
    let s3 = s2.send_to_peers_below(0, request, 1);
    assert(s3.nodes[0].votes_received == Set::<usize>::empty().insert(0usize));
    assert(s3.nodes[0].votes_received.len() == 1);
    crate::invariants::lemma_become_leader(s3, 0, 0);
    let len = s3.nodes[0].log.len();
    let leader = NodeView {
        role: Role::Leader,
        next_index: Seq::new(1, |k: int| (len + 1) as usize),
        match_index: Seq::new(1, |k: int| 0usize).update(0, len as usize),
        ..s3.nodes[0]
    };
    let s4 = s3.with_node(0, leader);
    lemma_wf_nodes(s3, 0);
    assert(s4.node_ok(0));
    crate::invariants::lemma_with_node(s3, 0, leader, 0);
    let s5 = s4.log_event(crate::text::leader_text(0, term));
    crate::invariants::lemma_log_event(s4, crate::text::leader_text(0, term), 0);
    lemma_send_heartbeats(s5, 0, 0);
}

/// Leader append-only: a node that leads the same term before and after a
/// tick has only added entries at the end of its log.
pub proof fn lemma_leader_log_only_grows(s: SimulationView, i: int)
    requires
        s.wf(),
        s.terms_at_most(u64::MAX - 1),
        0 <= i < s.nodes.len(),
        s.nodes[i].role == Role::Leader,
        s.step().nodes[i].role == Role::Leader,
        s.step().nodes[i].current_term == s.nodes[i].current_term,
    ensures
        s.nodes[i].log.is_prefix_of(s.step().nodes[i].log),
{
    lemma_step(s, u64::MAX - 1);
    assert(crate::model::node_evolves(s.nodes[i], s.step().nodes[i]));
}

/// One vote per term, across calls: once a node has voted for `c` in a
/// term, every later state that any sequence of the simulation's operations
/// reaches (they all evolve the state) finds it still voting for `c` as long
/// as it is in that term.
pub proof fn lemma_vote_kept_within_term(s: SimulationView, t: SimulationView, i: int, c: usize)
    requires
        s.evolves_to(t),
        0 <= i < s.nodes.len(),
        s.nodes[i].voted_for == Some(c),
        t.nodes[i].current_term == s.nodes[i].current_term,
    ensures
        t.nodes[i].voted_for == Some(c),
{
    assert(crate::model::node_evolves(s.nodes[i], t.nodes[i]));
}

/// Election safety after a tick: in a safe simulation, the state one tick
/// later has at most one leader per term.
pub proof fn lemma_one_leader_per_term_after_step(s: SimulationView, i: int, j: int)
    requires
        s.safe(),
        s.terms_at_most(u64::MAX - 1),
        0 <= i < s.nodes.len(),
        0 <= j < s.nodes.len(),
        s.step().nodes[i].role == Role::Leader,
        s.step().nodes[j].role == Role::Leader,
        s.step().nodes[i].current_term == s.step().nodes[j].current_term,
    ensures
        i == j,
{
    lemma_safe_step(s, u64::MAX - 1);
    reveal(SimulationView::safe);
    lemma_step(s, u64::MAX - 1);
    lemma_one_leader_per_term(s.step(), i, j);
}

/// A leader's bookkeeping stays in bounds: in a well-formed simulation every
/// leader has one `next_index` and one `match_index` per node, and each
/// `next_index` points into its log or just past it, so the AppendEntries it
/// builds read its log in bounds.
pub proof fn lemma_leader_bookkeeping(s: SimulationView, i: int)
    requires
        s.wf(),
        0 <= i < s.nodes.len(),
        s.nodes[i].role == Role::Leader,
    ensures
        s.nodes[i].next_index.len() == s.nodes.len(),
        s.nodes[i].match_index.len() == s.nodes.len(),
        forall|p: int|
            0 <= p < s.nodes.len() ==> 1 <= #[trigger] s.nodes[i].next_index[p] <= s.nodes[i].log.len() + 1,
{
    lemma_wf_nodes(s, i);
}

/// Replays agree: from the same state, the same calls lead to the same
/// state, trace included. Each operation's contract fixes its result as
/// these functions of the state before it, so two simulations built by
/// `Simulation::new` with the same size and seed and given the same calls
/// stay equal.
pub proof fn lemma_replay(a: SimulationView, b: SimulationView, steps: nat, command: Seq<char>, id: usize)
    requires
        a == b,
    ensures
        a.run(steps) == b.run(steps),
        a.run(steps).events == b.run(steps).events,
        a.submit(command) == b.submit(command),
        a.kill(id) == b.kill(id),
        a.revive(id) == b.revive(id),
{
}

/// A follower never claims more committed than its leader: after an
/// AppendEntries its commit index is what it was, or, when the leader's
/// commit index is higher and the entries were accepted, the leader's
/// commit index capped by the follower's new log length.
pub proof fn lemma_follower_commit_follows_leader(
    s: SimulationView,
    id: usize,
    term: u64,
    leader_id: usize,
    prev_log_index: usize,
    prev_log_term: u64,
    entries: Seq<LogEntryView>,
    leader_commit: usize,
)
    requires
        id < s.nodes.len(),
        leader_id < s.nodes.len(),
    ensures
        ({
            let node = s.nodes[id as int];
            let t = s.handle_append_entries(
                id,
                term,
                leader_id,
                prev_log_index,
                prev_log_term,
                entries,
                leader_commit,
            );
            let c = t.nodes[id as int].commit_index;
            let len = t.nodes[id as int].log.len();
            let accepted = node.alive && term >= node.current_term && (prev_log_index == 0 || (
            prev_log_index <= node.log.len() && node.log[prev_log_index - 1].term == prev_log_term));
            &&& c == node.commit_index || c <= leader_commit
            &&& !accepted ==> c == node.commit_index
            &&& accepted && leader_commit <= node.commit_index ==> c == node.commit_index
            &&& accepted && leader_commit > node.commit_index && leader_commit <= len ==> c == leader_commit
            &&& accepted && leader_commit > node.commit_index && leader_commit > len ==> c == len
            &&& accepted ==> len >= prev_log_index + entries.len()
            &&& accepted ==> forall|i: int| 0 <= i < prev_log_index ==> #[trigger] t.nodes[id as int].log[i]
                == node.log[i]
            &&& accepted ==> forall|j: int|
                0 <= j < entries.len() ==> #[trigger] t.nodes[id as int].log[prev_log_index + j].term
                    == entries[j].term
            &&& accepted ==> t.nodes[id as int].role == Role::Follower && t.nodes[id as int].current_term
                == term
            &&& !accepted ==> t.nodes[id as int].log == node.log
            &&& node.alive && s.nodes[leader_id as int].alive ==> {
                &&& t.inbox.len() == s.inbox.len() + 1
                &&& t.inbox.last().to == leader_id
                &&& t.inbox.last().message == (MessageView::AppendEntriesReply {
                    term: if term >= node.current_term {
                        term
                    } else {
                        node.current_term
                    },
                    success: accepted,
                    follower_id: id,
                    match_index: if accepted {
                        (prev_log_index + entries.len()) as usize
                    } else {
                        0
                    },
                })
            }
        }),
{
    let node = s.nodes[id as int];
    if node.alive && term >= node.current_term && (prev_log_index == 0 || (prev_log_index
        <= node.log.len() && node.log[prev_log_index - 1].term == prev_log_term)) {
        lemma_append_matches_entries(node.log, prev_log_index as int, entries);
    }
}

/// The nodes of a cluster of `n` that hold log index `c` by the bookkeeping
/// of leader `id`: the leader itself, and every other node whose recorded
/// match index reaches `c`.
pub open spec fn holders(match_index: Seq<usize>, id: int, n: nat, c: int) -> Set<int> {
    Set::new(|p: int| 0 <= p < n && (p == id || match_index[p] >= c))
}

/// The other nodes below `k` whose recorded match index reaches `c`.
spec fn others_holding(match_index: Seq<usize>, id: int, k: nat, c: int) -> Set<int> {
    Set::new(|p: int| 0 <= p < k && p != id && match_index[p] >= c)
}

proof fn lemma_others_holding(match_index: Seq<usize>, id: int, k: nat, c: int)
    ensures
        others_holding(match_index, id, k, c).finite(),
        others_holding(match_index, id, k, c).len() == crate::model::peers_holding(
            match_index,
            id,
            c,
            k,
        ),
    decreases k,
{
    if k == 0 {
        assert(others_holding(match_index, id, k, c) =~= Set::empty());
    } else {
        let k1 = (k - 1) as nat;
        lemma_others_holding(match_index, id, k1, c);
        let prev = others_holding(match_index, id, k1, c);
        if k1 != id && match_index[k1 as int] >= c {
            assert(others_holding(match_index, id, k, c) =~= prev.insert(k1 as int));
            assert(!prev.contains(k1 as int));
        } else {
            assert(others_holding(match_index, id, k, c) =~= prev);
        }
    }
}

/// The commit rule, counted out: whenever a leader's commit index rises to
/// `c`, more than half of the cluster's nodes, the leader included, hold
/// index `c` by its bookkeeping, and the entry at `c` is from its term.
pub proof fn lemma_commit_counts_a_strict_majority(s: SimulationView, id: usize)
    requires
        s.wf(),
        id < s.nodes.len(),
    ensures
        ({
            let node = s.nodes[id as int];
            let c = s.advance_commit_index(id).nodes[id as int].commit_index;
            c > node.commit_index ==> {
                &&& holders(node.match_index, id as int, s.nodes.len(), c as int).finite()
                &&& 2 * holders(node.match_index, id as int, s.nodes.len(), c as int).len() > s.nodes.len()
                &&& c <= node.log.len()
                &&& node.log[c - 1].term == node.current_term
            }
        }),
{
    let node = s.nodes[id as int];
    let n = s.nodes.len();
    let c = s.advance_commit_index(id).nodes[id as int].commit_index;
    lemma_commit_needs_majority(s, id);
    if c > node.commit_index {
        lemma_others_holding(node.match_index, id as int, n, c as int);
        let others = others_holding(node.match_index, id as int, n, c as int);
        assert(holders(node.match_index, id as int, n, c as int) =~= others.insert(id as int));
        assert(!others.contains(id as int));
        assert(1 + crate::model::peers_holding(node.match_index, id as int, c as int, n) >= n / 2 + 1);
    }
}

/// The vote rule, the other way: a live voter grants its vote to a
/// candidate whose log is at least as up to date as its own (a higher last
/// term, or the same last term and at least as many entries), in a term no
/// older than its own, when it has no vote for another candidate in that
/// term; it records the vote and answers that it was granted.
pub proof fn lemma_up_to_date_candidate_gets_vote(
    s: SimulationView,
    to: usize,
    term: u64,
    candidate_id: usize,
    last_log_index: usize,
    last_log_term: u64,
)
    requires
        to < s.nodes.len(),
        candidate_id < s.nodes.len(),
        s.nodes[to as int].alive,
        term >= s.nodes[to as int].current_term,
        term > s.nodes[to as int].current_term || s.nodes[to as int].voted_for is None
            || s.nodes[to as int].voted_for == Some(candidate_id),
        ({
            let log = s.nodes[to as int].log;
            let own_last = if log.len() == 0 {
                0
            } else {
                log[log.len() - 1].term
            };
            last_log_term > own_last || (last_log_term == own_last && last_log_index >= log.len())
        }),
    ensures
        ({
            let t = s.handle_request_vote(to, term, candidate_id, last_log_index, last_log_term);
            &&& t.nodes[to as int].voted_for == Some(candidate_id)
            &&& t.nodes[to as int].current_term == term
            &&& s.nodes[candidate_id as int].alive ==> {
                &&& t.inbox.len() == s.inbox.len() + 1
                &&& t.inbox.last().to == candidate_id
                &&& t.inbox.last().message == (MessageView::RequestVoteReply {
                    term,
                    vote_granted: true,
                    voter_id: to,
                })
            }
        }),
{
}

/// A revived node is a live follower, whatever role it held, and keeps its
/// term, vote, log and commit index; no other node changes.
pub proof fn lemma_revived_node_follows(s: SimulationView, id: usize)
    requires
        id < s.nodes.len(),
    ensures
        ({
            let t = s.revive(id);
            let before = s.nodes[id as int];
            let after = t.nodes[id as int];
            &&& t.nodes.len() == s.nodes.len()
            &&& after.alive
            &&& after.role == Role::Follower
            &&& after.current_term == before.current_term
            &&& after.voted_for == before.voted_for
            &&& after.log == before.log
            &&& after.commit_index == before.commit_index
            &&& forall|j: int| 0 <= j < s.nodes.len() && j != id ==> t.nodes[j] == s.nodes[j]
        }),
{
}

/// The leaders of a term, as listed: an id is listed exactly when it names
/// a live node that leads that term.
pub proof fn lemma_leaders_in_term_are_live_leaders(s: SimulationView, term: u64)
    requires
        s.wf(),
    ensures
        forall|x: usize| #[trigger] s.leaders_in_term(term).contains(x) <==> {
            &&& x < s.nodes.len()
            &&& s.nodes[x as int].alive
            &&& s.nodes[x as int].role == Role::Leader
            &&& s.nodes[x as int].current_term == term
        },
{
    lemma_leaders_listed(s, term, s.nodes.len());
}

proof fn lemma_leaders_listed(s: SimulationView, term: u64, k: nat)
    requires
        s.wf(),
        k <= s.nodes.len(),
    ensures
        forall|x: usize| #[trigger] s.leaders_in_term_below(term, k).contains(x) <==> {
            &&& x < k
            &&& s.nodes[x as int].alive
            &&& s.nodes[x as int].role == Role::Leader
            &&& s.nodes[x as int].current_term == term
        },
    decreases k,
{
    if k > 0 {
        let k1 = (k - 1) as nat;
        lemma_leaders_listed(s, term, k1);
        lemma_wf_nodes(s, k1 as int);
        let rest = s.leaders_in_term_below(term, k1);
        let node = s.nodes[k1 as int];
        assert(node.id == k1);
        assert forall|x: usize| #[trigger] s.leaders_in_term_below(term, k).contains(x) <==> {
            &&& x < k
            &&& s.nodes[x as int].alive
            &&& s.nodes[x as int].role == Role::Leader
            &&& s.nodes[x as int].current_term == term
        } by {
            if node.alive && node.role == Role::Leader && node.current_term == term {
                assert(s.leaders_in_term_below(term, k) == rest.push(node.id));
                if s.leaders_in_term_below(term, k).contains(x) {
                    let m = choose|m: int| 0 <= m < rest.len() + 1 && rest.push(node.id)[m] == x;
                    if m < rest.len() {
                        assert(rest.contains(x));
                    }
                }
                if x == k1 {
                    assert(rest.push(node.id)[rest.len() as int] == x);
                } else if x < k1 && s.nodes[x as int].alive && s.nodes[x as int].role == Role::Leader
                    && s.nodes[x as int].current_term == term {
                    assert(rest.contains(x));
                    let m = choose|m: int| 0 <= m < rest.len() && rest[m] == x;
                    assert(rest.push(node.id)[m] == x);
                }
            } else {
                assert(s.leaders_in_term_below(term, k) == rest);
            }
        }
    }
}

} // verus!
