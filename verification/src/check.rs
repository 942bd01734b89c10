//! How the probes of one check are combined into its outcome.
//!
//! The probes themselves are network I/O and happen outside this library:
//! the caller probes the targets in order, hands each probe's result to
//! [`Aggregate::observe`], stops as soon as that answers [`Step::Done`], and
//! otherwise asks [`Aggregate::finish`] once every target has been probed.
use crate::exit;
use vstd::prelude::*;

verus! {

/// Whether every target must answer, or any one is enough.
#[derive(Clone, Copy, Debug, PartialEq, Eq, Structural)]
pub enum Mode {
    All,
    Any,
}

impl Default for Mode {
    fn default() -> (m: Self)
        ensures
            m == Mode::All,
    {
        Mode::All
    }
}

/// The result of one connection attempt.
#[derive(Debug)]
pub enum ProbeResult {
    /// The connection was accepted.
    Connected,
    ConnectRefused,
    Timeout,
    /// Any other error, with its description.
    OtherErr(String),
}

/// Why a check did not succeed.
#[derive(Clone, Copy, Debug, PartialEq, Eq, Structural)]
pub enum AggregateFailure {
    Failed,
    Timeout,
}

/// What has been seen so far while probing the targets of a check.
#[derive(Clone, Copy, Debug, PartialEq, Eq, Structural)]
pub struct Aggregate {
    pub mode: Mode,
    pub saw_timeout: bool,
    pub saw_failure: bool,
}

/// What to do after a probe.
#[derive(Clone, Copy, Debug, PartialEq, Eq)]
pub enum Step {
    /// Probe the next target, if any.
    Continue(Aggregate),
    /// Stop probing: the check's outcome is known.
    Done(Result<(), AggregateFailure>),
}

/// A probe that neither succeeded nor timed out.
pub open spec fn is_failure(r: ProbeResult) -> bool {
    r is ConnectRefused || r is OtherErr
}

/// The state before any probe.
pub open spec fn initial(mode: Mode) -> Aggregate {
    Aggregate { mode, saw_timeout: false, saw_failure: false }
}

/// One probe's effect: in `All` mode a timeout ends the check at once, in
/// `Any` mode a success does; every other result is remembered.
pub open spec fn step_spec(a: Aggregate, r: ProbeResult) -> Step {
    match a.mode {
        Mode::All => match r {
            ProbeResult::Connected => Step::Continue(a),
            ProbeResult::Timeout => Step::Done(Err(AggregateFailure::Timeout)),
            _ => Step::Continue(Aggregate { saw_failure: true, ..a }),
        },
        Mode::Any => match r {
            ProbeResult::Connected => Step::Done(Ok(())),
            ProbeResult::Timeout => Step::Continue(Aggregate { saw_timeout: true, ..a }),
            _ => Step::Continue(Aggregate { saw_failure: true, ..a }),
        },
    }
}

/// The outcome once every target has been probed without an early stop.
pub open spec fn finish_spec(a: Aggregate) -> Result<(), AggregateFailure> {
    match a.mode {
        Mode::All => if a.saw_failure {
            Err(AggregateFailure::Failed)
        } else {
            Ok(())
        },
        Mode::Any => if a.saw_failure {
            Err(AggregateFailure::Failed)
        } else if a.saw_timeout {
            Err(AggregateFailure::Timeout)
        } else {
            Err(AggregateFailure::Failed)
        },
    }
}

/// Feeding the results `rs` one by one from state `a`: the outcome, and how
/// many of the results were looked at before the check stopped.
pub open spec fn run_spec(a: Aggregate, rs: Seq<ProbeResult>) -> (Result<(), AggregateFailure>, nat)
    decreases rs.len(),
{
    if rs.len() == 0 {
        (finish_spec(a), 0)
    } else {
        match step_spec(a, rs[0]) {
            Step::Done(res) => (res, 1),
            Step::Continue(next) => {
                let (res, n) = run_spec(next, rs.drop_first());
                (res, n + 1)
            },
        }
    }
}

/// The index of the first timeout, or the length.
pub open spec fn first_timeout(rs: Seq<ProbeResult>) -> nat
    decreases rs.len(),
{
    if rs.len() == 0 {
        0
    } else if rs[0] is Timeout {
        0
    } else {
        first_timeout(rs.drop_first()) + 1
    }
}

/// The index of the first success, or the length.
pub open spec fn first_connected(rs: Seq<ProbeResult>) -> nat
    decreases rs.len(),
{
    if rs.len() == 0 {
        0
    } else if rs[0] is Connected {
        0
    } else {
        first_connected(rs.drop_first()) + 1
    }
}

pub open spec fn any_ok(rs: Seq<ProbeResult>) -> bool {
    exists|i: int| 0 <= i < rs.len() && #[trigger] rs[i] is Connected
}

pub open spec fn any_timeout(rs: Seq<ProbeResult>) -> bool {
    exists|i: int| 0 <= i < rs.len() && #[trigger] rs[i] is Timeout
}

pub open spec fn any_failure(rs: Seq<ProbeResult>) -> bool {
    exists|i: int| 0 <= i < rs.len() && is_failure(#[trigger] rs[i])
}

/// The outcome of a check whose targets gave the results `rs`.
///
/// `All`: a timeout anywhere is a timeout; otherwise any other failure is a
/// failure; otherwise success. `Any`: one success is success; otherwise any
/// failure other than a timeout is a failure; otherwise a timeout is a
/// timeout; and no targets at all is a failure.
pub open spec fn outcome(mode: Mode, rs: Seq<ProbeResult>) -> Result<(), AggregateFailure> {
    match mode {
        Mode::All => if any_timeout(rs) {
            Err(AggregateFailure::Timeout)
        } else if any_failure(rs) {
            Err(AggregateFailure::Failed)
        } else {
            Ok(())
        },
        Mode::Any => if any_ok(rs) {
            Ok(())
        } else if any_failure(rs) {
            Err(AggregateFailure::Failed)
        } else if any_timeout(rs) {
            Err(AggregateFailure::Timeout)
        } else {
            Err(AggregateFailure::Failed)
        },
    }
}

/// How many targets are probed: in `All` mode up to the first timeout, in
/// `Any` mode up to the first success, otherwise all of them.
pub open spec fn probes_used(mode: Mode, rs: Seq<ProbeResult>) -> nat {
    match mode {
        Mode::All => if any_timeout(rs) {
            first_timeout(rs) + 1
        } else {
            rs.len()
        },
        Mode::Any => if any_ok(rs) {
            first_connected(rs) + 1
        } else {
            rs.len()
        },
    }
}

impl Aggregate {
    /// The state before any probe.
    pub fn new(mode: Mode) -> (a: Aggregate)
        ensures
            a == initial(mode),
    {
        Aggregate { mode, saw_timeout: false, saw_failure: false }
    }

    /// Takes the result of the next probe into account.
    pub fn observe(self, r: &ProbeResult) -> (s: Step)
        ensures
            s == step_spec(self, *r),
    {
        match self.mode {
            Mode::All => match r {
                ProbeResult::Connected => Step::Continue(self),
                ProbeResult::Timeout => Step::Done(Err(AggregateFailure::Timeout)),
                _ => Step::Continue(Aggregate { saw_failure: true, ..self }),
            },
            Mode::Any => match r {
                ProbeResult::Connected => Step::Done(Ok(())),
                ProbeResult::Timeout => Step::Continue(Aggregate { saw_timeout: true, ..self }),
                _ => Step::Continue(Aggregate { saw_failure: true, ..self }),
            },
        }
    }

    /// The outcome once every target has been probed.
    pub fn finish(self) -> (res: Result<(), AggregateFailure>)
        ensures
            res == finish_spec(self),
    {
        match self.mode {
            Mode::All => if self.saw_failure {
                Err(AggregateFailure::Failed)
            } else {
                Ok(())
            },
            Mode::Any => if self.saw_failure {
                Err(AggregateFailure::Failed)
            } else if self.saw_timeout {
                Err(AggregateFailure::Timeout)
            } else {
                Err(AggregateFailure::Failed)
            },
        }
    }
}

/// The exit code for a check's outcome.
pub open spec fn check_exit_code_spec(res: Result<(), AggregateFailure>) -> u8 {
    match res {
        Ok(()) => exit::SUCCESS,
        Err(AggregateFailure::Failed) => exit::CHECK_FAILED,
        Err(AggregateFailure::Timeout) => exit::TIMEOUT,
    }
}

/// The exit code for a check's outcome.
pub fn check_exit_code(res: &Result<(), AggregateFailure>) -> (code: u8)
    ensures
        code == check_exit_code_spec(*res),
{
    match res {
        Ok(()) => exit::SUCCESS,
        Err(AggregateFailure::Failed) => exit::CHECK_FAILED,
        Err(AggregateFailure::Timeout) => exit::TIMEOUT,
    }
}


// ---------------------------------------------------------------- laws

proof fn lemma_any_drop_first(rs: Seq<ProbeResult>)
    requires
        rs.len() > 0,
    ensures
        any_ok(rs) == (rs[0] is Connected || any_ok(rs.drop_first())),
        any_timeout(rs) == (rs[0] is Timeout || any_timeout(rs.drop_first())),
        any_failure(rs) == (is_failure(rs[0]) || any_failure(rs.drop_first())),
{
    let t = rs.drop_first();
    if any_ok(rs) && !(rs[0] is Connected) {
        let i = choose|i: int| 0 <= i < rs.len() && #[trigger] rs[i] is Connected;
        assert(t[i - 1] is Connected);
    }
    if any_ok(t) {
        let i = choose|i: int| 0 <= i < t.len() && #[trigger] t[i] is Connected;
        assert(rs[i + 1] is Connected);
    }
    if any_timeout(rs) && !(rs[0] is Timeout) {
        let i = choose|i: int| 0 <= i < rs.len() && #[trigger] rs[i] is Timeout;
        assert(t[i - 1] is Timeout);
    }
    if any_timeout(t) {
        let i = choose|i: int| 0 <= i < t.len() && #[trigger] t[i] is Timeout;
        assert(rs[i + 1] is Timeout);
    }
    if any_failure(rs) && !is_failure(rs[0]) {
        let i = choose|i: int| 0 <= i < rs.len() && is_failure(#[trigger] rs[i]);
        assert(is_failure(t[i - 1]));
    }
    if any_failure(t) {
        let i = choose|i: int| 0 <= i < t.len() && is_failure(#[trigger] t[i]);
        assert(is_failure(rs[i + 1]));
    }
}

proof fn lemma_run_all(a: Aggregate, rs: Seq<ProbeResult>)
    requires
        a.mode == Mode::All,
    ensures
        run_spec(a, rs) == (if any_timeout(rs) {
            (Err::<(), AggregateFailure>(AggregateFailure::Timeout), first_timeout(rs) + 1)
        } else if a.saw_failure || any_failure(rs) {
            (Err::<(), AggregateFailure>(AggregateFailure::Failed), rs.len())
        } else {
            (Ok::<(), AggregateFailure>(()), rs.len())
        }),
    decreases rs.len(),
{
    if rs.len() > 0 {
        lemma_any_drop_first(rs);
        match step_spec(a, rs[0]) {
            Step::Done(_) => {},
            Step::Continue(next) => {
                lemma_run_all(next, rs.drop_first());
            },
        }
    }
}

proof fn lemma_run_any(a: Aggregate, rs: Seq<ProbeResult>)
    requires
        a.mode == Mode::Any,
    ensures
        run_spec(a, rs) == (if any_ok(rs) {
            (Ok::<(), AggregateFailure>(()), first_connected(rs) + 1)
        } else if a.saw_failure || any_failure(rs) {
            (Err::<(), AggregateFailure>(AggregateFailure::Failed), rs.len())
        } else if a.saw_timeout || any_timeout(rs) {
            (Err::<(), AggregateFailure>(AggregateFailure::Timeout), rs.len())
        } else {
            (Err::<(), AggregateFailure>(AggregateFailure::Failed), rs.len())
        }),
    decreases rs.len(),
{
    if rs.len() > 0 {
        lemma_any_drop_first(rs);
        match step_spec(a, rs[0]) {
            Step::Done(_) => {},
            Step::Continue(next) => {
                lemma_run_any(next, rs.drop_first());
            },
        }
    }
}

/// Probing the targets one by one, starting from [`Aggregate::new`], feeding
/// each result to [`Aggregate::observe`] and calling [`Aggregate::finish`]
/// when no target is left, yields exactly the check's `outcome`, and stops
/// after exactly `probes_used` probes.
pub proof fn lemma_probing_yields_outcome(mode: Mode, rs: Seq<ProbeResult>)
    ensures
        run_spec(initial(mode), rs) == (outcome(mode, rs), probes_used(mode, rs)),
{
    match mode {
        Mode::All => lemma_run_all(initial(mode), rs),
        Mode::Any => lemma_run_any(initial(mode), rs),
    }
}

/// In `All` mode a check succeeds exactly when every target accepted the
/// connection.
pub proof fn lemma_all_mode_succeeds_iff_every_target_up(rs: Seq<ProbeResult>)
    ensures
        (outcome(Mode::All, rs) is Ok) <==> (forall|i: int|
            0 <= i < rs.len() ==> #[trigger] rs[i] is Connected),
{
    if forall|i: int| 0 <= i < rs.len() ==> #[trigger] rs[i] is Connected {
        if any_timeout(rs) {
            let i = choose|i: int| 0 <= i < rs.len() && #[trigger] rs[i] is Timeout;
            assert(rs[i] is Connected);
        }
        if any_failure(rs) {
            let i = choose|i: int| 0 <= i < rs.len() && is_failure(#[trigger] rs[i]);
            assert(rs[i] is Connected);
        }
    } else {
        let i = choose|i: int| 0 <= i < rs.len() && !(#[trigger] rs[i] is Connected);
        if rs[i] is Timeout {
            assert(any_timeout(rs));
        } else {
            assert(is_failure(rs[i]));
            assert(any_failure(rs));
        }
    }
}

/// In `Any` mode a check succeeds exactly when some target accepted the
/// connection.
pub proof fn lemma_any_mode_succeeds_iff_some_target_up(rs: Seq<ProbeResult>)
    ensures
        (outcome(Mode::Any, rs) is Ok) <==> any_ok(rs),
{
}

} // verus!
