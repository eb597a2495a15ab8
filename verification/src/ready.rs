//! Readiness: which strategy judges a target ready, the time it gets, and
//! the decision taken on each observation while waiting.

use vstd::prelude::*;
use crate::config::{HumanDuration, WaitFor};
use crate::text::{debug_form, debug_quote, decimal, decimal_u64, decimal_i32, signed_decimal, text};

verus! {

/// How a target's readiness is judged.
#[derive(Clone, Debug)]
pub enum Strategy {
    /// A TCP connection to this port on 127.0.0.1 succeeds.
    Port(u16),
    /// The process exits with this code.
    ExitCode(i32),
    /// A line of the process's output matches this pattern.
    LogPattern(String),
    /// The target is ready as soon as it runs.
    Immediate,
}

/// The strategy and the time limit for one target.
#[derive(Clone, Debug)]
pub struct Readiness {
    pub strategy: Strategy,
    pub timeout: HumanDuration,
}

/// The time limit used where none is configured: thirty seconds.
pub open spec fn default_timeout() -> HumanDuration {
    HumanDuration { secs: 30, nanos: 0 }
}

/// The strategy that `wait_for` selects: the port first, then the exit
/// code, then the log pattern, else none.
pub open spec fn strategy_of(w: WaitFor) -> Strategy {
    match w.port {
        Some(p) => Strategy::Port(p),
        None => match w.exit_code {
            Some(c) => Strategy::ExitCode(c),
            None => match w.log_pattern {
                Some(l) => Strategy::LogPattern(l),
                None => Strategy::Immediate,
            },
        },
    }
}

/// The port, when set, decides; without a port the exit code decides; with
/// neither, the log pattern; with none of them the target is ready at once.
pub proof fn law_strategy_precedence(w: WaitFor)
    ensures
        w.port matches Some(p) ==> strategy_of(w) == Strategy::Port(p),
        w.port is None ==> (w.exit_code matches Some(c) ==> strategy_of(w) == Strategy::ExitCode(c)),
        w.port is None && w.exit_code is None ==> (w.log_pattern matches Some(l) ==> strategy_of(w)
            == Strategy::LogPattern(l)),
        w.port is None && w.exit_code is None && w.log_pattern is None ==> strategy_of(w) == Strategy::Immediate,
{
}

/// How readiness is judged for a target with this `wait_for`.
pub fn readiness(wait_for: &WaitFor) -> (r: Readiness)
    ensures
        wait_for.port matches Some(p) ==> (r.strategy matches Strategy::Port(q) && q == p),
        wait_for.port is None ==> (wait_for.exit_code matches Some(c) ==> (r.strategy matches Strategy::ExitCode(d)
            && d == c)),
        wait_for.port is None && wait_for.exit_code is None ==> (wait_for.log_pattern matches Some(l) ==> (
        r.strategy matches Strategy::LogPattern(m) && m@ == l@)),
        wait_for.port is None && wait_for.exit_code is None && wait_for.log_pattern is None ==> r.strategy is Immediate,
        match (r.strategy, strategy_of(*wait_for)) {
            (Strategy::Port(a), Strategy::Port(b)) => a == b,
            (Strategy::ExitCode(a), Strategy::ExitCode(b)) => a == b,
            (Strategy::LogPattern(a), Strategy::LogPattern(b)) => a@ == b@,
            (Strategy::Immediate, Strategy::Immediate) => true,
            _ => false,
        },
        r.timeout == match wait_for.timeout {
            Some(t) => t,
            None => default_timeout(),
        },
{
    let timeout = match wait_for.timeout_duration() {
        Some(t) => t,
        None => HumanDuration::from_secs(30),
    };
    let strategy = match wait_for.port {
        Some(p) => Strategy::Port(p),
        None => match wait_for.exit_code {
            Some(c) => Strategy::ExitCode(c),
            None => match &wait_for.log_pattern {
                Some(l) => Strategy::LogPattern(l.clone()),
                None => Strategy::Immediate,
            },
        },
    };
    Readiness { strategy, timeout }
}

/// The pause after a failed connection attempt: doubling from 50 ms, at
/// most 500 ms.
pub struct PortBackoff {
    delay_ms: u64,
}

/// The pause that follows a pause of `d` milliseconds.
pub open spec fn next_delay(d: u64) -> u64 {
    if 2 * d < 500 {
        (2 * d) as u64
    } else {
        500
    }
}

/// The pause after `k` failed attempts before it.
pub open spec fn delay_after(k: nat) -> u64
    decreases k,
{
    if k == 0 {
        50
    } else {
        next_delay(delay_after((k - 1) as nat))
    }
}

impl PortBackoff {
    /// The pause that the next failed attempt is followed by.
    pub closed spec fn current(&self) -> u64 {
        self.delay_ms
    }

    #[verifier::type_invariant]
    closed spec fn bounded(&self) -> bool {
        self.delay_ms <= 500
    }

    /// The state before any attempt.
    pub fn new() -> (b: PortBackoff)
        ensures
            b.current() == delay_after(0),
    {
        PortBackoff { delay_ms: 50 }
    }

    /// The pause to take after a failed attempt; the next one doubles, up to
    /// 500 ms.
    pub fn next(&mut self) -> (pause_ms: u64)
        ensures
            pause_ms == old(self).current(),
            final(self).current() == next_delay(old(self).current()),
    {
        proof {
            use_type_invariant(&*self);
        }
        let pause = self.delay_ms;
        let doubled = pause * 2;
        self.delay_ms = if doubled < 500 { doubled } else { 500 };
        pause
    }
}

/// The pauses between connection attempts never fall below 50 ms nor exceed
/// 500 ms, never shrink, and are 500 ms from the fifth attempt on.
pub proof fn law_backoff_bounded(k: nat)
    ensures
        50 <= delay_after(k) <= 500,
        delay_after(k) <= delay_after(k + 1),
        k >= 4 ==> delay_after(k) == 500,
    decreases k,
{
    assert(delay_after(0) == 50);
    assert(delay_after(1) == 100);
    assert(delay_after(2) == 200);
    assert(delay_after(3) == 400);
    assert(delay_after(4) == 500);
    if k > 0 {
        law_backoff_bounded((k - 1) as nat);
    }
}

/// What one attempt to reach a target's port found.
#[derive(Clone, Copy, Debug, PartialEq, Eq, Structural)]
pub enum PortEvent {
    /// A connection succeeded.
    Connected,
    /// The connection failed.
    Refused,
    /// The time limit passed before an attempt.
    DeadlinePassed,
}

/// The wait for a target's port.
pub struct PortWait {
    backoff: PortBackoff,
}

impl PortWait {
    /// The pause that the next refused attempt is followed by.
    pub closed spec fn pause(&self) -> u64 {
        self.backoff.current()
    }

    /// The wait before any attempt.
    pub fn new() -> (w: PortWait)
        ensures
            w.pause() == delay_after(0),
    {
        PortWait { backoff: PortBackoff::new() }
    }

    /// The decision on an attempt to reach `port` of target `name`.
    pub fn step(&mut self, name: &String, port: u16, event: PortEvent) -> (s: Step)
        ensures
            match event {
                PortEvent::Connected => s is Ready && final(self).pause() == old(self).pause(),
                PortEvent::Refused => s == Step::Pause(old(self).pause())
                    && final(self).pause() == next_delay(old(self).pause()),
                PortEvent::DeadlinePassed => s matches Step::Failed(ReadyError::PortTimeout { target, port: p })
                    && target@ == name@ && p == port && final(self).pause() == old(self).pause(),
            },
    {
        match event {
            PortEvent::Connected => Step::Ready,
            PortEvent::Refused => Step::Pause(self.backoff.next()),
            PortEvent::DeadlinePassed => Step::Failed(ReadyError::PortTimeout { target: name.clone(), port }),
        }
    }
}

/// Why a target did not become ready.
#[derive(Clone, Debug)]
pub enum ReadyError {
    PortTimeout { target: String, port: u16 },
    ExitMismatch { target: String, code: i32, expected: i32 },
    ExitWithoutCode { target: String },
    WaitFailed { target: String, detail: String },
    ExitTimeout { target: String },
    InvalidPattern { pattern: String, detail: String },
    LogClosed { target: String },
    LogTimeout { target: String, pattern: String },
}

/// The text that reports a readiness failure (for an invalid pattern, the
/// context line; the regex error's own text is in `detail`).
pub open spec fn ready_message(e: ReadyError) -> Seq<char> {
    match e {
        ReadyError::PortTimeout { target, port } => "target "@ + debug_form(target@)
            + ": timed out waiting for port "@ + decimal(port as nat),
        ReadyError::ExitMismatch { target, code, expected } => "target "@ + debug_form(target@)
            + ": exited with code "@ + signed_decimal(code as int) + ", expected "@ + signed_decimal(
            expected as int,
        ),
        ReadyError::ExitWithoutCode { target } => "target "@ + debug_form(target@) + ": exited without a code"@,
        ReadyError::WaitFailed { target, detail } => "target "@ + debug_form(target@)
            + ": failed while waiting for exit: "@ + detail@,
        ReadyError::ExitTimeout { target } => "target "@ + debug_form(target@) + ": timed out waiting for exit"@,
        ReadyError::InvalidPattern { pattern, detail } => "invalid log pattern "@ + debug_form(pattern@),
        ReadyError::LogClosed { target } => "target "@ + debug_form(target@)
            + ": log stream closed before readiness pattern matched"@,
        ReadyError::LogTimeout { target, pattern } => "target "@ + debug_form(target@)
            + ": timed out waiting for log pattern "@ + debug_form(pattern@),
    }
}

impl ReadyError {
    /// The message that reports this failure.
    pub fn message(&self) -> (m: String)
        ensures
            m@ == ready_message(*self),
    {
        match self {
            ReadyError::PortTimeout { target, port } => text("target ").concat(
                debug_quote(target.as_str()).as_str(),
            ).concat(": timed out waiting for port ").concat(decimal_u64(*port as u64).as_str()),
            ReadyError::ExitMismatch { target, code, expected } => text("target ").concat(
                debug_quote(target.as_str()).as_str(),
            ).concat(": exited with code ").concat(decimal_i32(*code).as_str()).concat(
                ", expected ",
            ).concat(decimal_i32(*expected).as_str()),
            ReadyError::ExitWithoutCode { target } => text("target ").concat(
                debug_quote(target.as_str()).as_str(),
            ).concat(": exited without a code"),
            ReadyError::WaitFailed { target, detail } => text("target ").concat(
                debug_quote(target.as_str()).as_str(),
            ).concat(": failed while waiting for exit: ").concat(detail.as_str()),
            ReadyError::ExitTimeout { target } => text("target ").concat(
                debug_quote(target.as_str()).as_str(),
            ).concat(": timed out waiting for exit"),
            ReadyError::InvalidPattern { pattern, detail: _ } => text("invalid log pattern ").concat(
                debug_quote(pattern.as_str()).as_str(),
            ),
            ReadyError::LogClosed { target } => text("target ").concat(
                debug_quote(target.as_str()).as_str(),
            ).concat(": log stream closed before readiness pattern matched"),
            ReadyError::LogTimeout { target, pattern } => text("target ").concat(
                debug_quote(target.as_str()).as_str(),
            ).concat(": timed out waiting for log pattern ").concat(
                debug_quote(pattern.as_str()).as_str(),
            ),
        }
    }
}

/// The decision after one look at a target.
#[derive(Clone, Debug)]
pub enum Step {
    /// The target is ready.
    Ready,
    /// Look again after a pause of this many milliseconds.
    Pause(u64),
    /// The target will not become ready.
    Failed(ReadyError),
}

/// What one look at a process that is meant to exit found.
#[derive(Clone, Debug)]
pub enum ExitObservation {
    /// The process still runs.
    Running,
    /// The process exited, with this code if it has one.
    Exited(Option<i32>),
    /// Asking for the process's status failed, for this reason.
    WaitFailed(String),
    /// The time limit passed before the process exited.
    TimedOut,
}

/// The decision on a look at a process meant to exit with `expected`.
pub fn exit_step(name: &String, expected: i32, observed: ExitObservation) -> (s: Step)
    ensures
        match observed {
            ExitObservation::Running => s == Step::Pause(20),
            ExitObservation::Exited(Some(code)) => if code == expected {
                s is Ready
            } else {
                s matches Step::Failed(ReadyError::ExitMismatch { target, code: c, expected: x })
                    && target@ == name@ && c == code && x == expected
            },
            ExitObservation::Exited(None) => s matches Step::Failed(ReadyError::ExitWithoutCode { target })
                && target@ == name@,
            ExitObservation::WaitFailed(detail) => s matches Step::Failed(ReadyError::WaitFailed { target, detail: d })
                && target@ == name@ && d@ == detail@,
            ExitObservation::TimedOut => s matches Step::Failed(ReadyError::ExitTimeout { target }) && target@ == name@,
        },
{
    match observed {
        ExitObservation::Running => Step::Pause(20),
        ExitObservation::TimedOut => Step::Failed(ReadyError::ExitTimeout { target: name.clone() }),
        ExitObservation::Exited(Some(code)) => {
            if code == expected {
                Step::Ready
            } else {
                Step::Failed(ReadyError::ExitMismatch { target: name.clone(), code, expected })
            }
        },
        ExitObservation::Exited(None) => Step::Failed(ReadyError::ExitWithoutCode { target: name.clone() }),
        ExitObservation::WaitFailed(detail) => Step::Failed(ReadyError::WaitFailed { target: name.clone(), detail }),
    }
}

/// What `regex::Regex::new` reports for `pattern` (with its default limits):
/// nothing where it builds the expression, else the text of its error.
pub uninterp spec fn regex_error(pattern: Seq<char>) -> Option<Seq<char>>;

/// Whether `pattern` is a regular expression that the `regex` crate builds.
pub open spec fn regex_valid(pattern: Seq<char>) -> bool {
    regex_error(pattern) is None
}

/// Whether the regular expression `pattern` matches somewhere in `line`.
pub uninterp spec fn regex_matches(pattern: Seq<char>, line: Seq<char>) -> bool;

/// Builds `regex::Regex` from `pattern` (`Regex::new`); the build succeeds
/// exactly for valid patterns, and an error is given back as its text.
#[verifier::external_body]
fn regex_check(pattern: &str) -> (r: Result<(), String>)
    ensures
        r is Ok <==> regex_error(pattern@) is None,
        r matches Err(m) ==> regex_error(pattern@) == Some(m@),
{
    match regex::Regex::new(pattern) {
        Ok(_) => Ok(()),
        Err(e) => Err(e.to_string()),
    }
}

/// Builds `regex::Regex` from `pattern` and asks `Regex::is_match` whether it
/// matches somewhere in `line`; gives `None` where the pattern does not build.
#[verifier::external_body]
fn regex_find(pattern: &str, line: &str) -> (r: Option<bool>)
    ensures
        r is Some <==> regex_error(pattern@) is None,
        r matches Some(b) ==> b == regex_matches(pattern@, line@),
{
    match regex::Regex::new(pattern) {
        Ok(re) => Some(re.is_match(line)),
        Err(_) => None,
    }
}

/// A log pattern that is known to build.
pub struct LogWatch {
    pattern: String,
}

/// What the wait for a log line brought.
#[derive(Clone, Debug)]
pub enum LogEvent {
    /// A line of output.
    Line(String),
    /// The time limit passed.
    TimedOut,
    /// The output ended.
    Closed,
}

impl LogWatch {
    /// The pattern watched for.
    pub closed spec fn pattern(&self) -> Seq<char> {
        self.pattern@
    }

    #[verifier::type_invariant]
    closed spec fn valid(&self) -> bool {
        regex_valid(self.pattern@)
    }

    /// Checks that `pattern` is a valid regular expression.
    pub fn new(pattern: &String) -> (r: Result<LogWatch, ReadyError>)
        ensures
            r is Ok <==> regex_valid(pattern@),
            match r {
                Ok(w) => w.pattern() == pattern@,
                Err(e) => e matches ReadyError::InvalidPattern { pattern: p, detail: d } && p@ == pattern@
                    && regex_error(pattern@) == Some(d@),
            },
    {
        match regex_check(pattern.as_str()) {
            Ok(()) => Ok(LogWatch { pattern: pattern.clone() }),
            Err(detail) => Err(ReadyError::InvalidPattern { pattern: pattern.clone(), detail }),
        }
    }

    /// Whether `line` shows the target ready.
    pub fn matches(&self, line: &str) -> (b: bool)
        ensures
            b == regex_matches(self.pattern(), line@),
    {
        proof {
            use_type_invariant(self);
        }
        regex_find(self.pattern.as_str(), line).unwrap()
    }

    /// The decision on what the wait for a log line brought.
    pub fn step(&self, name: &String, event: LogEvent) -> (s: Step)
        ensures
            match event {
                LogEvent::Line(l) => if regex_matches(self.pattern(), l@) {
                    s is Ready
                } else {
                    s == Step::Pause(0)
                },
                LogEvent::TimedOut => s matches Step::Failed(ReadyError::LogTimeout { target, pattern })
                    && target@ == name@ && pattern@ == self.pattern(),
                LogEvent::Closed => s matches Step::Failed(ReadyError::LogClosed { target }) && target@ == name@,
            },
    {
        match event {
            LogEvent::Line(l) => {
                if self.matches(l.as_str()) {
                    Step::Ready
                } else {
                    Step::Pause(0)
                }
            },
            LogEvent::TimedOut => Step::Failed(
                ReadyError::LogTimeout { target: name.clone(), pattern: self.pattern.clone() },
            ),
            LogEvent::Closed => Step::Failed(ReadyError::LogClosed { target: name.clone() }),
        }
    }
}

} // verus!
