//! What a run may spend: fuel, calls of the host, depth, and whether it has
//! been cancelled.
use crate::error::{RunOutcome, RuntimeError};
use crate::text::decimal;
use vstd::prelude::*;
use vstd::string::*;

verus! {

/// The limits of a run. One that is absent limits nothing.
#[derive(Clone, Copy, Debug, PartialEq, Eq, Structural)]
pub struct Limits {
    pub fuel: Option<u64>,
    pub max_call_depth: Option<usize>,
    pub max_host_calls: Option<u64>,
}

/// Why a run was stopped.
#[derive(Clone, Copy, Debug, PartialEq, Eq, Structural)]
pub enum Stopped {
    Cancelled,
    Fuel,
    CallDepth,
    HostCalls,
}

/// The sum of two counts, held at the most a counter can show.
pub open spec fn tallied(a: int, b: int) -> int {
    if a + b > u64::MAX {
        u64::MAX as int
    } else {
        a + b
    }
}

/// Adds to a counter.
pub fn tally(a: u64, b: u64) -> (sum: u64)
    ensures
        sum == tallied(a as int, b as int),
{
    if a > u64::MAX - b {
        u64::MAX
    } else {
        a + b
    }
}

/// A request to stop that more than one holder sees: whoever has a copy may
/// raise it, and it stays raised.
///
/// What it holds at a moment depends on the other holders, so nothing is stated
/// of it.
#[derive(Clone, Debug)]
pub struct Cancellation {
    flag: std::sync::Arc<std::sync::atomic::AtomicBool>,
}

impl Cancellation {
    /// A request nobody has made.
    pub fn new() -> Cancellation {
        Cancellation { flag: std::sync::Arc::new(std::sync::atomic::AtomicBool::new(false)) }
    }

    /// Makes the request.
    pub fn cancel(&self) {
        self.flag.store(true, std::sync::atomic::Ordering::SeqCst);
    }

    /// Whether the request was made.
    pub fn is_cancelled(&self) -> bool {
        self.flag.load(std::sync::atomic::Ordering::SeqCst)
    }
}

/// What a run may spend, and what it has spent.
#[derive(Clone, Copy, Debug, PartialEq, Eq, Structural)]
pub struct Budget {
    pub limits: Limits,
    pub fuel_spent: u64,
    pub host_calls: u64,
    pub cancelled: bool,
}

impl Budget {
    /// What the run has spent of a limit goes past it.
    pub open spec fn over(spent: int, limit: Option<u64>) -> bool {
        limit matches Some(most) && spent > most
    }

    /// The budget once more fuel has been spent.
    pub open spec fn having_spent(self, fuel: int) -> Budget {
        Budget { fuel_spent: tallied(self.fuel_spent as int, fuel) as u64, ..self }
    }

    /// Why a run that has spent this much has to stop, if it has to: because
    /// it was cancelled, or else because its fuel is spent.
    pub open spec fn stops(self) -> Option<Stopped> {
        if self.cancelled {
            Some(Stopped::Cancelled)
        } else if Budget::over(self.fuel_spent as int, self.limits.fuel) {
            Some(Stopped::Fuel)
        } else {
            None
        }
    }

    /// A budget of which nothing has been spent.
    pub fn new(limits: Limits) -> (budget: Budget)
        ensures
            budget == (Budget { limits, fuel_spent: 0, host_calls: 0, cancelled: false }),
    {
        Budget { limits, fuel_spent: 0, host_calls: 0, cancelled: false }
    }

    /// Cancels the run.
    pub fn cancel(&mut self)
        ensures
            *final(self) == (Budget { cancelled: true, ..*old(self) }),
    {
        self.cancelled = true;
    }

    /// Spends fuel without asking whether the run may go on.
    pub fn spend(&mut self, fuel: u64)
        ensures
            *final(self) == old(self).having_spent(fuel as int),
    {
        self.fuel_spent = tally(self.fuel_spent, fuel);
    }

    /// Spends fuel, and says why the run has to stop, if it has to.
    pub fn safepoint(&mut self, fuel: u64) -> (result: Result<(), Stopped>)
        ensures
            *final(self) == old(self).having_spent(fuel as int),
            match result {
                Ok(_) => old(self).having_spent(fuel as int).stops() is None,
                Err(stopped) => old(self).having_spent(fuel as int).stops() == Some(stopped),
            },
    {
        self.spend(fuel);
        if self.cancelled {
            return Err(Stopped::Cancelled);
        }
        match self.limits.fuel {
            Some(most) => if self.fuel_spent > most {
                Err(Stopped::Fuel)
            } else {
                Ok(())
            },
            None => Ok(()),
        }
    }

    /// Counts one call of the host, and says why the run has to stop, if it
    /// has to.
    pub fn charge_host_call(&mut self) -> (result: Result<(), Stopped>)
        ensures
            *final(self) == (Budget {
                host_calls: tallied(old(self).host_calls as int, 1) as u64,
                ..*old(self)
            }),
            match result {
                Ok(_) => !old(self).cancelled && !Budget::over(
                    tallied(old(self).host_calls as int, 1),
                    old(self).limits.max_host_calls,
                ),
                Err(Stopped::Cancelled) => old(self).cancelled,
                Err(stopped) => !old(self).cancelled && stopped is HostCalls && Budget::over(
                    tallied(old(self).host_calls as int, 1),
                    old(self).limits.max_host_calls,
                ),
            },
    {
        self.host_calls = tally(self.host_calls, 1);
        if self.cancelled {
            return Err(Stopped::Cancelled);
        }
        match self.limits.max_host_calls {
            Some(most) => if self.host_calls > most {
                Err(Stopped::HostCalls)
            } else {
                Ok(())
            },
            None => Ok(()),
        }
    }

    /// What a stopped run reports.
    pub open spec fn told(self, stopped: Stopped) -> crate::error::Failure {
        match stopped {
            Stopped::Cancelled => crate::error::Failure {
                rule: Some("A host may stop a run at any safepoint."@),
                outcome: RunOutcome::Cancelled,
                ..crate::error::failure("the run was cancelled"@)
            },
            Stopped::Fuel => crate::error::Failure {
                rule: Some("A run spends no more fuel than its host allows."@),
                outcome: RunOutcome::Budget,
                ..crate::error::failure(
                    "the run spent its "@ + crate::text::digits(
                        (if self.limits.fuel is Some {
                            self.limits.fuel->0
                        } else {
                            0
                        }) as nat,
                    ) + " unit(s) of fuel"@,
                )
            },
            Stopped::CallDepth => crate::error::Failure {
                rule: Some("A run calls no deeper than its host allows."@),
                outcome: RunOutcome::Budget,
                ..crate::error::failure(
                    "the run went past its call depth limit of "@ + crate::text::digits(
                        (if self.limits.max_call_depth is Some {
                            self.limits.max_call_depth->0
                        } else {
                            0
                        }) as nat,
                    ),
                )
            },
            Stopped::HostCalls => crate::error::Failure {
                rule: Some("A run calls its host no more often than the host allows."@),
                outcome: RunOutcome::Budget,
                ..crate::error::failure(
                    "the run went past its limit of "@ + crate::text::digits(
                        (if self.limits.max_host_calls is Some {
                            self.limits.max_host_calls->0
                        } else {
                            0
                        }) as nat,
                    ) + " host call(s)"@,
                )
            },
        }
    }

    /// What a stopped run reports.
    pub fn to_runtime_error(&self, stopped: Stopped) -> (error: RuntimeError)
        ensures
            error@ == self.told(stopped),
    {
        match stopped {
            Stopped::Cancelled => RuntimeError::new("the run was cancelled".to_owned()).with_rule(
                "A host may stop a run at any safepoint.".to_owned(),
            ).with_outcome(RunOutcome::Cancelled),
            Stopped::Fuel => {
                let most: u64 = match self.limits.fuel {
                    Some(most) => most,
                    None => 0,
                };
                let mut message: String = "the run spent its ".to_owned();
                message.append(decimal(most).as_str());
                message.append(" unit(s) of fuel");
                RuntimeError::new(message).with_rule(
                    "A run spends no more fuel than its host allows.".to_owned(),
                ).with_outcome(RunOutcome::Budget)
            },
            Stopped::CallDepth => {
                let most: usize = match self.limits.max_call_depth {
                    Some(most) => most,
                    None => 0,
                };
                let mut message: String =
                    "the run went past its call depth limit of ".to_owned();
                message.append(decimal(most as u64).as_str());
                RuntimeError::new(message).with_rule(
                    "A run calls no deeper than its host allows.".to_owned(),
                ).with_outcome(RunOutcome::Budget)
            },
            Stopped::HostCalls => {
                let most: u64 = match self.limits.max_host_calls {
                    Some(most) => most,
                    None => 0,
                };
                let mut message: String = "the run went past its limit of ".to_owned();
                message.append(decimal(most).as_str());
                message.append(" host call(s)");
                RuntimeError::new(message).with_rule(
                    "A run calls its host no more often than the host allows.".to_owned(),
                ).with_outcome(RunOutcome::Budget)
            },
        }
    }
}

/// A count goes on exactly until it is past what it can show, and then stands.
pub proof fn a_count_goes_on_until_it_is_full(a: u64, b: u64)
    ensures
        a + b <= 0xffff_ffff_ffff_ffff ==> tallied(a as int, b as int) == a + b,
        a + b > 0xffff_ffff_ffff_ffff ==> tallied(a as int, b as int) == 0xffff_ffff_ffff_ffff,
        tallied(a as int, b as int) == tallied(b as int, a as int),
        tallied(a as int, 0) == a,
{
}

/// A budget stops a run just when the run was cancelled, which is told first,
/// or has spent more fuel than it was given; as much is no reason.
pub proof fn a_run_stops_when_cancelled_or_spent(budget: Budget)
    ensures
        budget.cancelled ==> budget.stops() == Some(Stopped::Cancelled),
        !budget.cancelled && budget.limits.fuel is None ==> budget.stops() is None,
        !budget.cancelled && budget.limits.fuel is Some && budget.fuel_spent
            > budget.limits.fuel->0 ==> budget.stops() == Some(Stopped::Fuel),
        !budget.cancelled && budget.limits.fuel is Some && budget.fuel_spent
            <= budget.limits.fuel->0 ==> budget.stops() is None,
{
}

/// A limit is gone past only above it, and one that is absent never is.
pub proof fn a_limit_is_gone_past_only_above_it(spent: int, most: u64)
    ensures
        Budget::over(spent, Some(most)) <==> spent > most,
        !Budget::over(spent, None),
{
}

/// Fuel that is spent in two parts is spent as much as at once, and nothing
/// else of the budget changes.
pub proof fn fuel_is_spent_in_parts_as_at_once(budget: Budget, a: u64, b: u64)
    ensures
        budget.having_spent(a as int).having_spent(b as int).fuel_spent == (if budget.fuel_spent
            + a + b > 0xffff_ffff_ffff_ffff {
            0xffff_ffff_ffff_ffff
        } else {
            budget.fuel_spent + a + b
        }),
        budget.having_spent(a as int).limits == budget.limits,
        budget.having_spent(a as int).host_calls == budget.host_calls,
        budget.having_spent(a as int).cancelled == budget.cancelled,
{
}

/// A stopped run says that it was cancelled, or which of its limits it went
/// past and how much that was.
pub proof fn a_stopped_run_says_what_stopped_it(budget: Budget, most: u64)
    ensures
        budget.told(Stopped::Cancelled).outcome == RunOutcome::Cancelled,
        budget.told(Stopped::Fuel).outcome == RunOutcome::Budget,
        budget.told(Stopped::CallDepth).outcome == RunOutcome::Budget,
        budget.told(Stopped::HostCalls).outcome == RunOutcome::Budget,
        budget.told(Stopped::Cancelled).message == "the run was cancelled"@,
        budget.limits.fuel == Some(most) ==> budget.told(Stopped::Fuel).message
            == "the run spent its "@ + crate::text::digits(most as nat) + " unit(s) of fuel"@,
        budget.limits.max_host_calls == Some(most) ==> budget.told(Stopped::HostCalls).message
            == "the run went past its limit of "@ + crate::text::digits(most as nat)
            + " host call(s)"@,
        budget.limits.max_call_depth is Some ==> budget.told(Stopped::CallDepth).message
            == "the run went past its call depth limit of "@ + crate::text::digits(
            budget.limits.max_call_depth->0 as nat,
        ),
{
}

} // verus!
