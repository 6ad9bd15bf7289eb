//! How long to wait for a cluster, for the report on a message and for a worker,
//! and what to say when the wait is over.

use vstd::prelude::*;

verus! {

/// How long a cluster may take to answer at all, in milliseconds.
pub const CONNECT_TIMEOUT_MS: u64 = 5_000;

/// How long a worker that dropped an answer may take to finish, in milliseconds.
pub const DEATH_GRACE_MS: u64 = 50;

/// What the client library reports, as far as it decides anything.
#[derive(Debug, Clone, Copy, PartialEq, Eq, Structural)]
pub enum Fault {
    Authentication,
    SaslAuthenticationFailed,
    Ssl,
    UnsupportedSaslMechanism,
    IllegalSaslState,
    Other,
}

/// Faults that no repetition heals: they are in the settings of the connection.
/// All others, such as a broker that did not answer, the library mends itself.
pub fn is_fatal(fault: Fault) -> (r: bool)
    ensures
        r == (fault != Fault::Other),
{
    match fault {
        Fault::Authentication | Fault::SaslAuthenticationFailed | Fault::Ssl
        | Fault::UnsupportedSaslMechanism | Fault::IllegalSaslState => true,
        Fault::Other => false,
    }
}

/// The first fault after which there is no use in waiting for the cluster.
#[derive(Debug)]
pub struct FatalError {
    pub reason: Option<String>,
}

impl Default for FatalError {
    fn default() -> (r: Self)
        ensures
            r.reason is None,
    {
        FatalError { reason: None }
    }
}

impl FatalError {
    /// Notes a fault. The first says most: what follows are its consequences.
    pub fn record(&mut self, reason: &str)
        ensures
            old(self).reason is Some ==> *final(self) == *old(self),
            old(self).reason is None ==> final(self).reason is Some && final(self).reason->0@
                == reason@,
    {
        if self.reason.is_none() {
            self.reason = Some(reason.to_owned());
        }
    }

    /// Takes the fault away.
    pub fn take(&mut self) -> (r: Option<String>)
        ensures
            r == old(self).reason,
            final(self).reason is None,
    {
        self.reason.take()
    }
}

/// What to do about a cluster that is waited for.
#[derive(Debug)]
pub enum Wait {
    Ready,
    AskAgain,
    Failed(String),
}

pub open spec fn cannot_reach(error: Seq<char>) -> Seq<char> {
    "can't reach cluster: "@ + error
}

/// Whether there is any use in asking a cluster: not after a fault that no
/// repetition heals.
pub fn before_probe(fatal: Option<String>) -> (r: Wait)
    ensures
        match fatal {
            Some(reason) => r matches Wait::Failed(text) && text@ == reason@,
            None => r is AskAgain,
        },
{
    match fatal {
        Some(reason) => Wait::Failed(reason),
        None => Wait::AskAgain,
    }
}

/// Whether a cluster has answered. `error` is why a request failed; `fatal` is
/// what was noted of faults by then. A fault that no repetition heals ends the
/// wait at once, and says more than that time ran out.
pub fn after_probe(error: Option<String>, elapsed_ms: u64, fatal: Option<String>) -> (r: Wait)
    ensures
        match error {
            None => r is Ready,
            Some(e) => match fatal {
                Some(reason) => r matches Wait::Failed(text) && text@ == reason@,
                None => if elapsed_ms < 5_000 {
                    r is AskAgain
                } else {
                    r matches Wait::Failed(text) && text@ == cannot_reach(e@)
                },
            },
        },
{
    match error {
        None => Wait::Ready,
        Some(e) => match fatal {
            Some(reason) => Wait::Failed(reason),
            None => {
                if elapsed_ms < CONNECT_TIMEOUT_MS {
                    return Wait::AskAgain;
                }
                let mut text = "can't reach cluster: ".to_owned();
                text.push_str(e.as_str());
                Wait::Failed(text)
            },
        },
    }
}

/// What came of the wait for a report on a message that was sent.
#[derive(Debug)]
pub enum Report<T> {
    Waiting,
    Done(T),
    Lost(String),
}

/// Whether to wait on for the report on a message. Where it is sent to is known
/// from the report alone: to say that it was sent before that would be to
/// announce a success that may not come.
pub fn after_poll<T>(outcome: Option<T>, elapsed_ms: u64, timeout_ms: u64) -> (r: Report<T>)
    ensures
        match outcome {
            Some(o) => r == Report::Done(o),
            None => if elapsed_ms > timeout_ms {
                r matches Report::Lost(e) && e@ == "no delivery report from the cluster"@
            } else {
                r is Waiting
            },
        },
{
    match outcome {
        Some(o) => Report::Done(o),
        None => if elapsed_ms > timeout_ms {
            Report::Lost("no delivery report from the cluster".to_owned())
        } else {
            Report::Waiting
        },
    }
}

/// What to do about an answer that did not come.
#[derive(Debug)]
pub enum MissingReply {
    /// The worker is gone: a new one is to be started.
    Restart,
    LookAgain,
    /// The worker lives: it dropped the answer on purpose.
    Dropped(String),
}

/// Why an answer did not come: the worker is dead, or it dropped it. A worker
/// that panics drops its answers a little before it is finished, so it is given
/// some time.
pub fn explain_missing_reply(
    generation: u64,
    live_generation: u64,
    finished: bool,
    waited_ms: u64,
) -> (r: MissingReply)
    ensures
        if live_generation != generation || finished {
            r is Restart
        } else if waited_ms >= 50 {
            r matches MissingReply::Dropped(e) && e@ == "the worker dropped the reply"@
        } else {
            r is LookAgain
        },
{
    if live_generation != generation || finished {
        MissingReply::Restart
    } else if waited_ms >= DEATH_GRACE_MS {
        MissingReply::Dropped("the worker dropped the reply".to_owned())
    } else {
        MissingReply::LookAgain
    }
}

pub open spec fn next_generation(generation: u64) -> u64 {
    if generation == u64::MAX {
        0
    } else {
        (generation + 1) as u64
    }
}

/// Whether the one who found a worker dead is to start a new one: only if no one
/// has done so since. Several calls find the same death.
pub fn restart(live_generation: &mut u64, dead: u64) -> (r: bool)
    ensures
        r == (*old(live_generation) == dead),
        *final(live_generation) == (if r {
            next_generation(dead)
        } else {
            *old(live_generation)
        }),
{
    if *live_generation == dead {
        *live_generation = live_generation.wrapping_add(1);
        true
    } else {
        false
    }
}

/// However many calls find the same worker dead, one of them starts a new one.
pub proof fn law_one_restart_for_one_death(dead: u64)
    ensures
        next_generation(dead) != dead,
{
}

pub open spec fn restarted_text(crash: Option<&str>) -> Seq<char> {
    match crash {
        Some(path) => "kafka worker crashed and was restarted — reconnect to the cluster to continue. The stack trace is in "@
            + path@ + "; send it over and it will be fixed"@,
        None => "kafka worker crashed and was restarted — reconnect to the cluster to continue"@,
    }
}

/// What a command is answered when the worker crashed: what happened, what to
/// do, and where the record of it lies.
pub fn worker_restarted(crash: Option<&str>) -> (r: String)
    ensures
        r@ == restarted_text(crash),
{
    match crash {
        Some(path) => {
            let mut out =
                "kafka worker crashed and was restarted — reconnect to the cluster to continue. The stack trace is in ".to_owned();
            out.push_str(path);
            out.push_str("; send it over and it will be fixed");
            out
        },
        None => {
            "kafka worker crashed and was restarted — reconnect to the cluster to continue".to_owned()
        },
    }
}

/// Each start of a worker has a number of its own: the next one, and the first
/// again behind the last.
pub proof fn law_numbers_of_workers(generation: u64)
    ensures
        generation < 0xffff_ffff_ffff_ffff ==> next_generation(generation) == generation + 1,
        generation == 0xffff_ffff_ffff_ffff ==> next_generation(generation) == 0,
{
}

/// A cluster that cannot be reached is reported with the reason, at the end.
pub proof fn law_reason_is_reported(error: Seq<char>)
    ensures
        cannot_reach(error).skip(21) == error,
        cannot_reach(error).take(21) == "can't reach cluster: "@,
{
    reveal_strlit("can't reach cluster: ");
    assert("can't reach cluster: "@.len() == 21);
    assert(cannot_reach(error).skip(21) =~= error);
    assert(cannot_reach(error).take(21) =~= "can't reach cluster: "@);
}

} // verus!
