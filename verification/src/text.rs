//! The text of the simulation's event trace.

use vstd::prelude::*;

verus! {

/// The character of decimal digit `d`.
pub open spec fn digit_char(d: nat) -> char {
    (d + 48) as char
}

/// The decimal digits of `n`, most significant first, with no leading zeros.
pub open spec fn decimal(n: nat) -> Seq<char>
    decreases n,
{
    if n < 10 {
        seq![digit_char(n)]
    } else {
        decimal(n / 10).push(digit_char(n % 10))
    }
}

/// The one-character text of decimal digit `d`.
fn digit_str(d: u64) -> (s: &'static str)
    requires
        d < 10,
    ensures
        s@ == seq![digit_char(d as nat)],
{
    if d == 0 {
        proof {
            reveal_strlit("0");
        }
        "0"
    } else if d == 1 {
        proof {
            reveal_strlit("1");
        }
        "1"
    } else if d == 2 {
        proof {
            reveal_strlit("2");
        }
        "2"
    } else if d == 3 {
        proof {
            reveal_strlit("3");
        }
        "3"
    } else if d == 4 {
        proof {
            reveal_strlit("4");
        }
        "4"
    } else if d == 5 {
        proof {
            reveal_strlit("5");
        }
        "5"
    } else if d == 6 {
        proof {
            reveal_strlit("6");
        }
        "6"
    } else if d == 7 {
        proof {
            reveal_strlit("7");
        }
        "7"
    } else if d == 8 {
        proof {
            reveal_strlit("8");
        }
        "8"
    } else {
        proof {
            reveal_strlit("9");
        }
        "9"
    }
}

/// The decimal digits of `x`, most significant first, without leading zeros.
fn decimal_string(x: u64) -> (s: String)
    ensures
        s@ == decimal(x as nat),
    decreases x,
{
    if x < 10 {
        String::from_str(digit_str(x))
    } else {
        let mut s = decimal_string(x / 10);
        s.append(digit_str(x % 10));
        s
    }
}

/// A trace line: the tick it happened at, then the event.
pub open spec fn tick_line(tick: u64, msg: Seq<char>) -> Seq<char> {
    "[tick "@ + decimal(tick as nat) + "] "@ + msg
}

pub open spec fn election_text(id: usize, term: u64) -> Seq<char> {
    "node "@ + decimal(id as nat) + " starts election for term "@ + decimal(term as nat)
}

pub open spec fn leader_text(id: usize, term: u64) -> Seq<char> {
    "node "@ + decimal(id as nat) + " becomes leader for term "@ + decimal(term as nat)
}

pub open spec fn vote_text(id: usize, grant: bool, candidate: usize, term: u64) -> Seq<char> {
    "node "@ + decimal(id as nat) + (if grant {
        " grants"@
    } else {
        " denies"@
    }) + " vote to node "@ + decimal(candidate as nat) + " for term "@ + decimal(term as nat)
}

pub open spec fn commit_text(id: usize, commit: usize) -> Seq<char> {
    "node "@ + decimal(id as nat) + " advances commit index to "@ + decimal(commit as nat)
}

pub open spec fn request_text(command: Seq<char>, id: usize, index: usize) -> Seq<char> {
    "client request '"@ + command + "' appended at node "@ + decimal(id as nat) + " (log index "@
        + decimal(index as nat) + ")"@
}

pub open spec fn killed_text(id: usize) -> Seq<char> {
    "node "@ + decimal(id as nat) + " killed"@
}

pub open spec fn revived_text(id: usize) -> Seq<char> {
    "node "@ + decimal(id as nat) + " revived"@
}

fn push_number(s: &mut String, x: u64)
    ensures
        final(s)@ == old(s)@ + decimal(x as nat),
{
    let d = decimal_string(x);
    s.append(d.as_str());
}

pub fn make_tick_line(tick: u64, msg: &String) -> (s: String)
    ensures
        s@ == tick_line(tick, msg@),
{
    let mut s = String::from_str("[tick ");
    push_number(&mut s, tick);
    s.append("] ");
    s.append(msg.as_str());
    s
}

pub fn make_election_text(id: usize, term: u64) -> (s: String)
    ensures
        s@ == election_text(id, term),
{
    let mut s = String::from_str("node ");
    push_number(&mut s, id as u64);
    s.append(" starts election for term ");
    push_number(&mut s, term);
    s
}

pub fn make_leader_text(id: usize, term: u64) -> (s: String)
    ensures
        s@ == leader_text(id, term),
{
    let mut s = String::from_str("node ");
    push_number(&mut s, id as u64);
    s.append(" becomes leader for term ");
    push_number(&mut s, term);
    s
}

pub fn make_vote_text(id: usize, grant: bool, candidate: usize, term: u64) -> (s: String)
    ensures
        s@ == vote_text(id, grant, candidate, term),
{
    let mut s = String::from_str("node ");
    push_number(&mut s, id as u64);
    if grant {
        s.append(" grants");
    } else {
        s.append(" denies");
    }
    s.append(" vote to node ");
    push_number(&mut s, candidate as u64);
    s.append(" for term ");
    push_number(&mut s, term);
    s
}

pub fn make_commit_text(id: usize, commit: usize) -> (s: String)
    ensures
        s@ == commit_text(id, commit),
{
    let mut s = String::from_str("node ");
    push_number(&mut s, id as u64);
    s.append(" advances commit index to ");
    push_number(&mut s, commit as u64);
    s
}

pub fn make_request_text(command: &str, id: usize, index: usize) -> (s: String)
    ensures
        s@ == request_text(command@, id, index),
{
    let mut s = String::from_str("client request '");
    s.append(command);
    s.append("' appended at node ");
    push_number(&mut s, id as u64);
    s.append(" (log index ");
    push_number(&mut s, index as u64);
    s.append(")");
    s
}

pub fn make_killed_text(id: usize) -> (s: String)
    ensures
        s@ == killed_text(id),
{
    let mut s = String::from_str("node ");
    push_number(&mut s, id as u64);
    s.append(" killed");
    s
}

pub fn make_revived_text(id: usize) -> (s: String)
    ensures
        s@ == revived_text(id),
{
    let mut s = String::from_str("node ");
    push_number(&mut s, id as u64);
    s.append(" revived");
    s
}

} // verus!
