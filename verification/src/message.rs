//! Message types exchanged between nodes: RequestVote, AppendEntries,
//! and their replies. These are the only ways two nodes ever interact.

use vstd::prelude::*;

verus! {

#[derive(Clone, Debug, PartialEq, Eq)]
pub struct LogEntry {
    pub term: u64,
    pub command: String,
}

/// What a log entry holds, as a mathematical value.
pub struct LogEntryView {
    pub term: u64,
    pub command: Seq<char>,
}

impl View for LogEntry {
    type V = LogEntryView;

    open spec fn view(&self) -> LogEntryView {
        LogEntryView { term: self.term, command: self.command@ }
    }
}

impl LogEntry {
    /// A copy of this entry with the same term and the same command text.
    pub fn duplicate(&self) -> (r: LogEntry)
        ensures
            r@ == self@,
    {
        LogEntry { term: self.term, command: self.command.clone() }
    }
}

/// The view of a whole log: the sequence of its entries' views.
pub open spec fn log_view(log: Seq<LogEntry>) -> Seq<LogEntryView> {
    log.map_values(|e: LogEntry| e@)
}

#[derive(Clone, Debug)]
pub enum Message {
    RequestVote { term: u64, candidate_id: usize, last_log_index: usize, last_log_term: u64 },
    RequestVoteReply { term: u64, vote_granted: bool, voter_id: usize },
    AppendEntries {
        term: u64,
        leader_id: usize,
        prev_log_index: usize,
        prev_log_term: u64,
        entries: Vec<LogEntry>,
        leader_commit: usize,
    },
    AppendEntriesReply {
        term: u64,
        success: bool,
        follower_id: usize,
        // The follower's log length after applying this AppendEntries,
        // used by the leader to advance next_index / match_index.
        match_index: usize,
    },
}

pub enum MessageView {
    RequestVote { term: u64, candidate_id: usize, last_log_index: usize, last_log_term: u64 },
    RequestVoteReply { term: u64, vote_granted: bool, voter_id: usize },
    AppendEntries {
        term: u64,
        leader_id: usize,
        prev_log_index: usize,
        prev_log_term: u64,
        entries: Seq<LogEntryView>,
        leader_commit: usize,
    },
    AppendEntriesReply { term: u64, success: bool, follower_id: usize, match_index: usize },
}

impl MessageView {
    /// The term that every message carries.
    pub open spec fn term(self) -> u64 {
        match self {
            MessageView::RequestVote { term, .. } => term,
            MessageView::RequestVoteReply { term, .. } => term,
            MessageView::AppendEntries { term, .. } => term,
            MessageView::AppendEntriesReply { term, .. } => term,
        }
    }
}

impl View for Message {
    type V = MessageView;

    open spec fn view(&self) -> MessageView {
        match self {
            Message::RequestVote { term, candidate_id, last_log_index, last_log_term } =>
                MessageView::RequestVote {
                    term: *term,
                    candidate_id: *candidate_id,
                    last_log_index: *last_log_index,
                    last_log_term: *last_log_term,
                },
            Message::RequestVoteReply { term, vote_granted, voter_id } =>
                MessageView::RequestVoteReply {
                    term: *term,
                    vote_granted: *vote_granted,
                    voter_id: *voter_id,
                },
            Message::AppendEntries {
                term,
                leader_id,
                prev_log_index,
                prev_log_term,
                entries,
                leader_commit,
            } => MessageView::AppendEntries {
                term: *term,
                leader_id: *leader_id,
                prev_log_index: *prev_log_index,
                prev_log_term: *prev_log_term,
                entries: log_view(entries@),
                leader_commit: *leader_commit,
            },
            Message::AppendEntriesReply { term, success, follower_id, match_index } =>
                MessageView::AppendEntriesReply {
                    term: *term,
                    success: *success,
                    follower_id: *follower_id,
                    match_index: *match_index,
                },
        }
    }
}

/// An in-flight message with a scheduled delivery tick. The simulation
/// bus holds a list of these instead of delivering anything instantly,
/// which is what makes the network model explicit and steppable.
#[derive(Clone, Debug)]
pub struct Envelope {
    pub from: usize,
    pub to: usize,
    pub deliver_at: u64,
    pub message: Message,
}

pub struct EnvelopeView {
    pub from: usize,
    pub to: usize,
    pub deliver_at: u64,
    pub message: MessageView,
}

impl View for Envelope {
    type V = EnvelopeView;

    open spec fn view(&self) -> EnvelopeView {
        EnvelopeView {
            from: self.from,
            to: self.to,
            deliver_at: self.deliver_at,
            message: self.message@,
        }
    }
}

} // verus!
