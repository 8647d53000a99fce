//! The decisions the service loop makes: what to do with one accepted
//! connection, and what a decay tick does. The loop itself — sockets and
//! timers — lives outside the library and hands events in as plain values.
use vstd::prelude::*;
use vstd::string::StringExecFns;

verus! {

use crate::limiter::RateLimits;
use crate::limiter::admits;
use crate::limiter::counter;
use crate::limiter::spec_accept;
use crate::limiter::spec_decay;

/// Relies on rand::random_range on `0..n`: a value drawn uniformly from
/// that range, so always strictly below `n`.
#[verifier::external_body]
fn random_index(n: usize) -> (r: usize)
    requires
        n > 0,
    ensures
        r < n,
{
    rand::random_range(0..n)
}

/// Whether `line` is one of the configured quotes followed by exactly one
/// newline terminator.
pub open spec fn is_response_line(line: Seq<char>, quotes: Seq<Seq<char>>) -> bool {
    exists|i: int| 0 <= i < quotes.len() && line == quotes[i].push('\n')
}

/// The view of a quote corpus: each quote as its character sequence.
pub open spec fn corpus(quotes: Seq<String>) -> Seq<Seq<char>> {
    quotes.map_values(|q: String| q@)
}

/// The decision for one accepted connection: charge the peer's address one
/// attempt, and say what goes back. `None` means the peer was rejected and
/// the connection is closed with nothing written; `Some(line)` means `line`
/// — a quote with a newline terminator — is written and the connection is
/// then closed.
pub fn handle_connection(limits: &mut RateLimits, addr: u128, quotes: &Vec<String>) -> (r: Option<
    String,
>)
    requires
        old(limits).wf(),
        counter(old(limits)@, addr) < usize::MAX,
        quotes@.len() > 0,
    ensures
        final(limits).wf(),
        final(limits)@ == spec_accept(old(limits)@, addr),
        (r is Some) == admits(old(limits)@, addr),
        r matches Some(line) ==> is_response_line(line@, corpus(quotes@)),
{
    if !limits.accept(addr) {
        return None;
    }
    let i = random_index(quotes.len());
    let line = quotes[i].clone().concat("\n");
    proof {
        reveal_strlit("\n");
        assert(line@ =~= corpus(quotes@)[i as int].push('\n'));
    }
    Some(line)
}

/// One of the two events the service loop races: a fresh connection, or the
/// periodic decay timer.
pub enum Event {
    /// A connection was accepted, from this source address.
    Incoming { addr: u128 },
    /// The decay timer fired.
    Tick,
}

/// What the loop must do after one step.
pub enum Action {
    /// Write this line to the connection, then shut it down.
    Send { line: String },
    /// Shut the connection down without writing anything.
    Close,
    /// Nothing outward: the tick only decayed the limiter.
    Decayed,
}

/// One iteration of the service loop, as a pure decision: the event that
/// became ready goes in, the limiter state advances, and the action the loop
/// owes the outside comes back.
pub fn step(limits: &mut RateLimits, event: Event, quotes: &Vec<String>) -> (r: Action)
    requires
        old(limits).wf(),
        quotes@.len() > 0,
        event matches Event::Incoming { addr } ==> counter(old(limits)@, addr) < usize::MAX,
    ensures
        final(limits).wf(),
        match event {
            Event::Incoming { addr } => {
                &&& final(limits)@ == spec_accept(old(limits)@, addr)
                &&& (r is Send) == admits(old(limits)@, addr)
                &&& !admits(old(limits)@, addr) ==> r is Close
                &&& r matches Action::Send { line } ==> is_response_line(
                    line@,
                    corpus(quotes@),
                )
            },
            Event::Tick => {
                &&& final(limits)@ == spec_decay(old(limits)@)
                &&& r is Decayed
            },
        },
{
    match event {
        Event::Incoming { addr } => match handle_connection(limits, addr, quotes) {
            Some(line) => Action::Send { line },
            None => Action::Close,
        },
        Event::Tick => {
            limits.lower();
            Action::Decayed
        },
    }
}

} // verus!
