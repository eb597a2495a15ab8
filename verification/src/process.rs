//! What each target's process is wired to: where its stdin comes from,
//! where its output goes, which pipes connect targets, how it is stopped,
//! and how its output is cut into lines.

use vstd::prelude::*;
use crate::config::{Config, Target};
use crate::envsubst::{Environment, expand, expansion};
use crate::error::{ProcessError, ProcessErrorView};
use crate::name_map::{NameMap, strictly_sorted};
use crate::text::{names_of, strip_prefix, text, trim_prefix_all, trim_prefixes};

verus! {

/// One of the two output streams of a process.
#[derive(Clone, Copy, Debug, PartialEq, Eq, Structural)]
pub enum StreamKind {
    Stdout,
    Stderr,
}

/// The entry under `key` in a target's descriptor specs, if any.
pub open spec fn fd_entry(t: Target, key: Seq<char>) -> Option<Seq<char>> {
    if t.fds.has(key) {
        Some(t.fds.lookup(key)@)
    } else {
        None
    }
}

/// The position of the first `.` in `s`, or its length where there is none.
pub open spec fn first_dot(s: Seq<char>) -> int
    decreases s.len(),
{
    if s.len() == 0 {
        0
    } else if s[0] == '.' {
        0
    } else {
        1 + first_dot(s.drop_first())
    }
}

/// A pipe from the output stream of one target into the stdin of another.
#[derive(Clone, Debug)]
pub struct PipeLink {
    pub consumer: String,
    pub source: String,
    pub stream: StreamKind,
}

/// What a stdin spec says about a pipe: nothing where it does not start with
/// `pipe:`, else the source target and stream, or why they cannot be read.
pub open spec fn pipe_of(spec: Seq<char>) -> Option<Result<(Seq<char>, StreamKind), ProcessErrorView>> {
    if "pipe:"@.is_prefix_of(spec) {
        let src = spec.skip("pipe:"@.len() as int);
        let d = first_dot(src);
        if d < src.len() {
            let stream = src.skip(d + 1);
            if stream == "stdout"@ {
                Some(Ok((src.take(d), StreamKind::Stdout)))
            } else if stream == "stderr"@ {
                Some(Ok((src.take(d), StreamKind::Stderr)))
            } else {
                Some(Err(ProcessErrorView::UnsupportedPipeStream(stream)))
            }
        } else {
            Some(Err(ProcessErrorView::InvalidPipeSource(spec)))
        }
    } else {
        None
    }
}

/// The pipes that the targets in `order` ask for, in that order, or the
/// first problem found.
pub open spec fn pipe_plan(cfg: Config, order: Seq<Seq<char>>) -> Result<Seq<(Seq<char>, Seq<char>, StreamKind)>, ProcessErrorView>
    decreases order.len(),
{
    if order.len() == 0 {
        Ok(Seq::empty())
    } else {
        let name = order.last();
        match pipe_plan(cfg, order.drop_last()) {
            Err(e) => Err(e),
            Ok(links) => match fd_entry(cfg.lookup(name), "stdin"@) {
                None => Ok(links),
                Some(spec) => match pipe_of(spec) {
                    None => Ok(links),
                    Some(Ok((source, stream))) => Ok(links.push((name, source, stream))),
                    Some(Err(e)) => Err(e),
                },
            },
        }
    }
}

/// A link as plain values.
pub open spec fn link_view(l: PipeLink) -> (Seq<char>, Seq<char>, StreamKind) {
    (l.consumer@, l.source@, l.stream)
}

/// Splits `s` at its first `.`.
fn split_at_dot(s: &str) -> (r: Option<(String, String)>)
    ensures
        match r {
            Some((a, b)) => first_dot(s@) < s@.len() && a@ == s@.take(first_dot(s@)) && b@ == s@.skip(first_dot(s@) + 1),
            None => first_dot(s@) >= s@.len(),
        },
{
    let cs = crate::text::chars_of(s);
    let mut i: usize = 0;
    assert(s@.skip(0) =~= s@);
    while i < cs.len() && cs[i] != '.'
        invariant
            cs@ == s@,
            i <= cs@.len(),
            first_dot(s@) == i + first_dot(s@.skip(i as int)),
        decreases cs@.len() - i,
    {
        assert(s@.skip(i as int).drop_first() =~= s@.skip(i + 1));
        i = i + 1;
    }
    if i == cs.len() {
        assert(s@.skip(i as int).len() == 0);
        return None;
    }
    assert(s@.skip(i as int)[0] == '.');
    let mut a: Vec<char> = Vec::new();
    let mut k: usize = 0;
    while k < i
        invariant
            cs@ == s@,
            k <= i < cs@.len(),
            a@ == s@.take(k as int),
        decreases i - k,
    {
        a.push(cs[k]);
        assert(a@ =~= s@.take(k + 1));
        k = k + 1;
    }
    let mut b: Vec<char> = Vec::new();
    let mut k: usize = i + 1;
    while k < cs.len()
        invariant
            cs@ == s@,
            i + 1 <= k <= cs@.len(),
            b@ == s@.subrange(i + 1, k as int),
        decreases cs@.len() - k,
    {
        b.push(cs[k]);
        assert(b@ =~= s@.subrange(i + 1, k + 1));
        k = k + 1;
    }
    assert(b@ =~= s@.skip(i + 1));
    Some((crate::text::string_from_chars(&a), crate::text::string_from_chars(&b)))
}

/// Reads the pipe named by a stdin spec.
fn parse_pipe(spec: &String) -> (r: Option<Result<(String, StreamKind), ProcessError>>)
    ensures
        match r {
            None => pipe_of(spec@) is None,
            Some(Ok((source, stream))) => pipe_of(spec@) == Some(Ok::<(Seq<char>, StreamKind), ProcessErrorView>((source@, stream))),
            Some(Err(e)) => pipe_of(spec@) == Some(Err::<(Seq<char>, StreamKind), ProcessErrorView>(e@)),
        },
{
    let src = match strip_prefix(spec.as_str(), "pipe:") {
        Some(s) => s,
        None => {
            return None;
        },
    };
    match split_at_dot(src.as_str()) {
        Some((source, stream)) => {
            if crate::name_map::str_eq(stream.as_str(), "stdout") {
                Some(Ok((source, StreamKind::Stdout)))
            } else if crate::name_map::str_eq(stream.as_str(), "stderr") {
                Some(Ok((source, StreamKind::Stderr)))
            } else {
                Some(Err(ProcessError::UnsupportedPipeStream { stream }))
            }
        },
        None => Some(Err(ProcessError::InvalidPipeSource { spec: spec.clone() })),
    }
}

/// The pipes that the targets in `order` ask for through a `pipe:` stdin
/// spec, in that order; fails on the first spec that cannot be read.
pub fn pipe_links(config: &Config, order: &[String]) -> (r: Result<Vec<PipeLink>, ProcessError>)
    requires
        forall|i: int| 0 <= i < order@.len() ==> config.has(#[trigger] order@[i]@),
    ensures
        match r {
            Ok(links) => pipe_plan(*config, names_of(order@)) == Ok::<Seq<(Seq<char>, Seq<char>, StreamKind)>, ProcessErrorView>(
                links@.map_values(|l: PipeLink| link_view(l))),
            Err(e) => pipe_plan(*config, names_of(order@)) == Err::<Seq<(Seq<char>, Seq<char>, StreamKind)>, ProcessErrorView>(e@),
        },
{
    let mut links: Vec<PipeLink> = Vec::new();
    let mut i: usize = 0;
    assert(names_of(order@).take(0) =~= Seq::<Seq<char>>::empty());
    assert(links@.map_values(|l: PipeLink| link_view(l)) =~= Seq::<(Seq<char>, Seq<char>, StreamKind)>::empty());
    while i < order.len()
        invariant
            i <= order@.len(),
            forall|i: int| 0 <= i < order@.len() ==> config.has(#[trigger] order@[i]@),
            pipe_plan(*config, names_of(order@).take(i as int)) == Ok::<Seq<(Seq<char>, Seq<char>, StreamKind)>, ProcessErrorView>(
                links@.map_values(|l: PipeLink| link_view(l))),
        decreases order@.len() - i,
    {
        let name = &order[i];
        let ghost prefix = names_of(order@).take(i + 1);
        proof {
            assert(prefix.drop_last() =~= names_of(order@).take(i as int));
            assert(prefix.last() == name@);
        }
        let target = config.get(name.as_str()).unwrap();
        match target.fds.get("stdin") {
            None => {},
            Some(spec) => match parse_pipe(spec) {
                None => {},
                Some(Ok((source, stream))) => {
                    let ghost before = links@;
                    links.push(PipeLink { consumer: name.clone(), source, stream });
                    proof {
                        assert(links@.map_values(|l: PipeLink| link_view(l)) =~= before.map_values(
                            |l: PipeLink| link_view(l),
                        ).push((name@, source@, stream)));
                    }
                },
                Some(Err(e)) => {
                    proof {
                        let whole = names_of(order@);
                        lemma_plan_error_sticks(*config, whole, i as int + 1, e@);
                        assert(whole.take(whole.len() as int) =~= whole);
                    }
                    return Err(e);
                },
            },
        }
        i = i + 1;
    }
    proof {
        assert(names_of(order@).take(i as int) =~= names_of(order@));
    }
    Ok(links)
}

/// Once a prefix of the order fails, the whole order fails the same way.
proof fn lemma_plan_error_sticks(cfg: Config, order: Seq<Seq<char>>, k: int, e: ProcessErrorView)
    requires
        0 <= k <= order.len(),
        pipe_plan(cfg, order.take(k)) == Err::<Seq<(Seq<char>, Seq<char>, StreamKind)>, ProcessErrorView>(e),
    ensures
        pipe_plan(cfg, order) == Err::<Seq<(Seq<char>, Seq<char>, StreamKind)>, ProcessErrorView>(e),
    decreases order.len() - k,
{
    if k < order.len() {
        assert(order.take(k + 1).drop_last() =~= order.take(k));
        lemma_plan_error_sticks(cfg, order, k + 1, e);
    } else {
        assert(order.take(k) =~= order);
    }
}

/// Where a target's stdin comes from.
#[derive(Clone, Debug)]
pub enum StdinSource {
    Inherit,
    Null,
    File(String),
    Pipe,
}

/// The stdin source that a target's `fds` entry names.
pub open spec fn stdin_plan(t: Target) -> Result<StdinSourceView, ProcessErrorView> {
    match fd_entry(t, "stdin"@) {
        None => Ok(StdinSourceView::Inherit),
        Some(spec) => if spec == "inherit"@ {
            Ok(StdinSourceView::Inherit)
        } else if spec == "null"@ {
            Ok(StdinSourceView::Null)
        } else if "file:"@.is_prefix_of(spec) {
            Ok(StdinSourceView::File(spec.skip("file:"@.len() as int)))
        } else if "pipe:"@.is_prefix_of(spec) {
            Ok(StdinSourceView::Pipe)
        } else {
            Err(ProcessErrorView::UnsupportedStdin(spec))
        },
    }
}

/// A `StdinSource` with its path as characters.
pub enum StdinSourceView {
    Inherit,
    Null,
    File(Seq<char>),
    Pipe,
}

impl View for StdinSource {
    type V = StdinSourceView;

    open spec fn view(&self) -> StdinSourceView {
        match self {
            StdinSource::Inherit => StdinSourceView::Inherit,
            StdinSource::Null => StdinSourceView::Null,
            StdinSource::File(p) => StdinSourceView::File(p@),
            StdinSource::Pipe => StdinSourceView::Pipe,
        }
    }
}

/// Where a target's stdin comes from, as its `fds` entry `stdin` says:
/// inherited where there is none.
pub fn stdin_source(target: &Target) -> (r: Result<StdinSource, ProcessError>)
    ensures
        match r {
            Ok(s) => stdin_plan(*target) == Ok::<StdinSourceView, ProcessErrorView>(s@),
            Err(e) => stdin_plan(*target) == Err::<StdinSourceView, ProcessErrorView>(e@),
        },
{
    match target.fds.get("stdin") {
        None => Ok(StdinSource::Inherit),
        Some(spec) => {
            if crate::name_map::str_eq(spec.as_str(), "inherit") {
                return Ok(StdinSource::Inherit);
            }
            if crate::name_map::str_eq(spec.as_str(), "null") {
                return Ok(StdinSource::Null);
            }
            if let Some(path) = strip_prefix(spec.as_str(), "file:") {
                return Ok(StdinSource::File(path));
            }
            if strip_prefix(spec.as_str(), "pipe:").is_some() {
                return Ok(StdinSource::Pipe);
            }
            Err(ProcessError::UnsupportedStdin { spec: spec.clone() })
        },
    }
}

/// The output spec for stream `key`: the `fds` entry where there is one, else
/// `file:` and the legacy path where that is set.
pub open spec fn output_spec_of(t: Target, key: Seq<char>, legacy: Option<String>) -> Option<Seq<char>> {
    match fd_entry(t, key) {
        Some(s) => Some(s),
        None => match legacy {
            Some(p) => Some("file:"@ + p@),
            None => None,
        },
    }
}

/// The output spec for stream `key` of a target.
pub fn output_spec(target: &Target, key: &str, legacy: &Option<String>) -> (r: Option<String>)
    ensures
        match r {
            Some(s) => output_spec_of(*target, key@, *legacy) == Some(s@),
            None => output_spec_of(*target, key@, *legacy) is None,
        },
{
    match target.fds.get(key) {
        Some(s) => Some(s.clone()),
        None => match legacy {
            Some(p) => Some(text("file:").concat(p.as_str())),
            None => None,
        },
    }
}

/// Where an output stream goes.
#[derive(Clone, Debug)]
pub enum OutputSink {
    InheritStdout,
    InheritStderr,
    Null,
    File(String),
}

/// An `OutputSink` with its path as characters.
pub enum OutputSinkView {
    InheritStdout,
    InheritStderr,
    Null,
    File(Seq<char>),
}

impl View for OutputSink {
    type V = OutputSinkView;

    open spec fn view(&self) -> OutputSinkView {
        match self {
            OutputSink::InheritStdout => OutputSinkView::InheritStdout,
            OutputSink::InheritStderr => OutputSinkView::InheritStderr,
            OutputSink::Null => OutputSinkView::Null,
            OutputSink::File(p) => OutputSinkView::File(p@),
        }
    }
}

/// The text of an optional string.
pub open spec fn opt_string_view(o: Option<&String>) -> Option<Seq<char>> {
    match o {
        Some(s) => Some(s@),
        None => None,
    }
}

/// The text of an optional string slice.
pub open spec fn opt_str_view(o: Option<&str>) -> Option<Seq<char>> {
    match o {
        Some(s) => Some(s@),
        None => None,
    }
}

/// The sink that an output spec names; `fallback` where there is no spec or
/// it says `inherit`.
pub open spec fn sink_plan(spec: Option<Seq<char>>, fallback: OutputSinkView) -> Result<OutputSinkView, ProcessErrorView> {
    match spec {
        None => Ok(fallback),
        Some(v) => if v == "inherit"@ {
            Ok(fallback)
        } else if v == "null"@ {
            Ok(OutputSinkView::Null)
        } else if "file:"@.is_prefix_of(v) {
            Ok(OutputSinkView::File(trim_prefixes(v, "file:"@)))
        } else {
            Err(ProcessErrorView::UnsupportedSink(v))
        },
    }
}

/// The sink that an output spec names.
pub fn output_sink(spec: Option<&String>, fallback: OutputSink) -> (r: Result<OutputSink, ProcessError>)
    ensures
        spec is None ==> (r is Ok && r->Ok_0@ == fallback@),
        (spec matches Some(v) && v@ == "inherit"@) ==> (r is Ok && r->Ok_0@ == fallback@),
        match r {
            Ok(s) => sink_plan(opt_string_view(spec), fallback@) == Ok::<OutputSinkView, ProcessErrorView>(s@),
            Err(e) => sink_plan(opt_string_view(spec), fallback@) == Err::<OutputSinkView, ProcessErrorView>(e@),
        },
{
    match spec {
        None => Ok(fallback),
        Some(value) => {
            if crate::name_map::str_eq(value.as_str(), "inherit") {
                return Ok(fallback);
            }
            if crate::name_map::str_eq(value.as_str(), "null") {
                return Ok(OutputSink::Null);
            }
            if strip_prefix(value.as_str(), "file:").is_some() {
                proof {
                    reveal_strlit("file:");
                }
                return Ok(OutputSink::File(trim_prefix_all(value.as_str(), "file:")));
            }
            Err(ProcessError::UnsupportedSink { spec: value.clone() })
        },
    }
}

/// The signal that stops a target.
#[derive(Clone, Copy, Debug, PartialEq, Eq, Structural)]
pub enum StopSignal {
    Interrupt,
    Kill,
    Terminate,
}

/// The stop signal a target's `signal` names: `SIGINT` and `SIGKILL` are
/// taken as written, anything else (and nothing) is `SIGTERM`.
pub open spec fn signal_of(name: Option<Seq<char>>) -> StopSignal {
    let n = match name {
        Some(s) => s,
        None => "SIGTERM"@,
    };
    if n == "SIGINT"@ {
        StopSignal::Interrupt
    } else if n == "SIGKILL"@ {
        StopSignal::Kill
    } else {
        StopSignal::Terminate
    }
}

/// The signal that stops a target whose `signal` is `name`.
pub fn stop_signal(name: Option<&str>) -> (s: StopSignal)
    ensures
        s == signal_of(opt_str_view(name)),
{
    let n = match name {
        Some(s) => s,
        None => "SIGTERM",
    };
    if crate::name_map::str_eq(n, "SIGINT") {
        StopSignal::Interrupt
    } else if crate::name_map::str_eq(n, "SIGKILL") {
        StopSignal::Kill
    } else {
        StopSignal::Terminate
    }
}


/// The text of an optional owned string.
pub open spec fn opt_owned_view(o: Option<String>) -> Option<Seq<char>> {
    match o {
        Some(s) => Some(s@),
        None => None,
    }
}

/// How long the processes get to exit after the stop signals, in milliseconds.
pub const STOP_GRACE_MS: u64 = 3000;

/// How long to sleep between two looks at the processes, in milliseconds.
pub const STOP_POLL_MS: u64 = 50;

/// What the stopping of the running processes reports back.
#[derive(Clone, Copy, Debug)]
pub enum StopEvent {
    /// A stop is asked for.
    Begin,
    /// The time since the stop signals were sent, taken before each look.
    Waited { elapsed_ms: u64 },
    /// The result of one look: whether every process has exited.
    Polled { all_exited: bool },
}

/// What to do next while stopping the running processes.
#[derive(Clone, Debug)]
pub enum StopAction {
    /// Send each process group, in the order given, the signal at the same position.
    Signal(Vec<StopSignal>),
    /// Look whether every process has exited.
    Poll,
    /// Sleep this many milliseconds, then report the time again.
    Pause(u64),
    /// Send every process group `SIGKILL`, then wait for every process.
    KillAll,
    /// Nothing more to do.
    Done,
}

/// The decisions of stopping: the signals are sent once, however often a
/// stop is asked for; then the processes are looked at every 50 ms until all
/// have exited or 3 s have passed, when every one is killed.
#[derive(Debug)]
pub struct StopPlan {
    stopped: bool,
}

impl StopPlan {
    /// Whether a stop has begun.
    pub closed spec fn stopped(&self) -> bool {
        self.stopped
    }

    /// A plan before any stop.
    pub fn new() -> (p: StopPlan)
        ensures
            !p.stopped(),
    {
        StopPlan { stopped: false }
    }

    /// The next action, given what happened. `configured` holds each running
    /// process's configured `signal`.
    pub fn step(&mut self, configured: &Vec<Option<String>>, event: StopEvent) -> (a: StopAction)
        ensures
            event is Begin && old(self).stopped() ==> a is Done,
            event is Begin && !old(self).stopped() ==> (a matches StopAction::Signal(sigs)
                && sigs@.len() == configured@.len()
                && forall|i: int| 0 <= i < sigs@.len() ==> #[trigger] sigs@[i] == signal_of(opt_owned_view(configured@[i]))),
            event is Begin ==> final(self).stopped(),
            !(event is Begin) ==> final(self).stopped() == old(self).stopped(),
            event matches StopEvent::Waited { elapsed_ms } ==> (if elapsed_ms < STOP_GRACE_MS {
                a is Poll
            } else {
                a is KillAll
            }),
            event matches StopEvent::Polled { all_exited } ==> (if all_exited {
                a is Done
            } else {
                a == StopAction::Pause(STOP_POLL_MS)
            }),
    {
        match event {
            StopEvent::Begin => {
                if self.stopped {
                    StopAction::Done
                } else {
                    self.stopped = true;
                    let mut sigs: Vec<StopSignal> = Vec::new();
                    let mut i: usize = 0;
                    while i < configured.len()
                        invariant
                            i <= configured@.len(),
                            sigs@.len() == i,
                            forall|k: int| 0 <= k < i ==> #[trigger] sigs@[k] == signal_of(opt_owned_view(configured@[k])),
                        decreases configured@.len() - i,
                    {
                        let sig = match &configured[i] {
                            Some(name) => stop_signal(Some(name.as_str())),
                            None => stop_signal(None),
                        };
                        sigs.push(sig);
                        i = i + 1;
                    }
                    StopAction::Signal(sigs)
                }
            },
            StopEvent::Waited { elapsed_ms } => {
                if elapsed_ms < STOP_GRACE_MS {
                    StopAction::Poll
                } else {
                    StopAction::KillAll
                }
            },
            StopEvent::Polled { all_exited } => {
                if all_exited {
                    StopAction::Done
                } else {
                    StopAction::Pause(STOP_POLL_MS)
                }
            },
        }
    }
}

/// What to run for a target: the program, its arguments, the working
/// directory relative to the base directory (none for the base directory
/// itself) and the environment variables it gets on top of the inherited ones.
#[derive(Clone, Debug)]
pub struct Launch {
    pub program: String,
    pub args: Vec<String>,
    pub cwd: Option<String>,
    pub env: NameMap<String>,
}

/// `launch` is how target `t` is run: its first command word as the
/// program, the other words expanded as arguments, its working directory
/// expanded, and its environment values expanded.
pub open spec fn launches(t: Target, l: Launch, env: Environment) -> bool {
    let cmd = t.cmd@;
    &&& cmd.len() > 0
    &&& l.program@ == cmd[0]@
    &&& l.args@.len() == cmd.len() - 1
    &&& forall|i: int| 0 <= i < l.args@.len() ==> #[trigger] l.args@[i]@ == expansion(cmd[i + 1]@, env)
    &&& match t.cwd {
        Some(c) => l.cwd matches Some(lc) && lc@ == expansion(c@, env),
        None => l.cwd is None,
    }
    &&& l.env.keys() == t.env.keys()
    &&& l.env.values().len() == t.env.values().len()
    &&& forall|i: int| 0 <= i < t.env.values().len() ==> #[trigger] l.env.values()[i]@ == expansion(t.env.values()[i]@, env)
}

/// How to run the target called `name`; fails where its command is empty.
pub fn launch(name: &String, target: &Target, env: &Environment) -> (r: Result<Launch, ProcessError>)
    ensures
        match r {
            Ok(l) => launches(*target, l, *env),
            Err(e) => target.cmd@.len() == 0 && e@ == ProcessErrorView::EmptyCommand(name@),
        },
{
    if target.cmd.len() == 0 {
        return Err(ProcessError::EmptyCommand { target: name.clone() });
    }
    let program = target.cmd[0].clone();
    let mut args: Vec<String> = Vec::new();
    let mut i: usize = 1;
    while i < target.cmd.len()
        invariant
            1 <= i <= target.cmd@.len(),
            args@.len() == i - 1,
            forall|k: int| 0 <= k < args@.len() ==> #[trigger] args@[k]@ == expansion(target.cmd@[k + 1]@, *env),
        decreases target.cmd@.len() - i,
    {
        args.push(expand(target.cmd[i].as_str(), env));
        i = i + 1;
    }
    let cwd = match &target.cwd {
        Some(c) => Some(expand(c.as_str(), env)),
        None => None,
    };
    let n = target.env.len();
    let mut names: Vec<String> = Vec::new();
    let mut values: Vec<String> = Vec::new();
    let mut k: usize = 0;
    while k < n
        invariant
            n == target.env.keys().len(),
            n == target.env.values().len(),
            strictly_sorted(target.env.keys()),
            k <= n,
            names_of(names@) == target.env.keys().take(k as int),
            names@.len() == k,
            values@.len() == k,
            forall|j: int| 0 <= j < k ==> #[trigger] values@[j]@ == expansion(target.env.values()[j]@, *env),
        decreases n - k,
    {
        let ghost prev = names@;
        names.push(target.env.key_at(k).clone());
        values.push(expand(target.env.value_at(k).as_str(), env));
        proof {
            assert forall|j: int| 0 <= j < k + 1 implies #[trigger] names_of(names@)[j] == target.env.keys().take(k + 1)[j] by {
                if j < k {
                    assert(names@[j] == prev[j]);
                    assert(names_of(prev)[j] == target.env.keys().take(k as int)[j]);
                }
            }
            assert(names_of(names@) =~= target.env.keys().take(k + 1));
        }
        k = k + 1;
    }
    proof {
        assert(target.env.keys().take(n as int) =~= target.env.keys());
    }
    let vars = NameMap::from_parts(names, values);
    Ok(Launch { program, args, cwd, env: vars })
}

/// No line feed in the bytes.
pub open spec fn no_newline(s: Seq<u8>) -> bool {
    forall|i: int| 0 <= i < s.len() ==> #[trigger] s[i] != 10u8
}

/// The lines, each followed by a line feed, one after the other.
pub open spec fn joined_lines(lines: Seq<Seq<u8>>) -> Seq<u8>
    decreases lines.len(),
{
    if lines.len() == 0 {
        Seq::empty()
    } else {
        joined_lines(lines.drop_last()) + lines.last() + seq![10u8]
    }
}

/// The bytes of a stream not yet ended by a line feed.
pub struct LineBuffer {
    pending: Vec<u8>,
}

impl LineBuffer {
    /// The bytes waiting for their line feed.
    pub closed spec fn pending(&self) -> Seq<u8> {
        self.pending@
    }

    #[verifier::type_invariant]
    closed spec fn no_feed_pending(&self) -> bool {
        no_newline(self.pending@)
    }

    /// An empty buffer.
    pub fn new() -> (b: LineBuffer)
        ensures
            b.pending() == Seq::<u8>::empty(),
    {
        LineBuffer { pending: Vec::new() }
    }

    /// Takes more bytes of the stream and gives back the lines they complete,
    /// without their line feeds; what follows the last line feed waits.
    pub fn push(&mut self, bytes: &[u8]) -> (lines: Vec<Vec<u8>>)
        ensures
            old(self).pending() + bytes@ == joined_lines(lines@.map_values(|l: Vec<u8>| l@)) + final(self).pending(),
            no_newline(final(self).pending()),
            forall|i: int| 0 <= i < lines@.len() ==> no_newline(#[trigger] lines@[i]@),
    {
        proof {
            use_type_invariant(&*self);
        }
        let mut pending: Vec<u8> = Vec::new();
        std::mem::swap(&mut pending, &mut self.pending);
        let ghost start = pending@;
        let mut lines: Vec<Vec<u8>> = Vec::new();
        let mut i: usize = 0;
        assert(bytes@.take(0) =~= Seq::<u8>::empty());
        assert(lines@.map_values(|l: Vec<u8>| l@) =~= Seq::<Seq<u8>>::empty());
        while i < bytes.len()
            invariant
                i <= bytes@.len(),
                no_newline(pending@),
                forall|j: int| 0 <= j < lines@.len() ==> no_newline(#[trigger] lines@[j]@),
                start + bytes@.take(i as int) == joined_lines(lines@.map_values(|l: Vec<u8>| l@)) + pending@,
            decreases bytes@.len() - i,
        {
            let b = bytes[i];
            let ghost before_lines = lines@;
            let ghost before_pending = pending@;
            if b == 10u8 {
                let mut line: Vec<u8> = Vec::new();
                std::mem::swap(&mut line, &mut pending);
                lines.push(line);
                proof {
                    let views = lines@.map_values(|l: Vec<u8>| l@);
                    let old_views = before_lines.map_values(|l: Vec<u8>| l@);
                    assert(views.drop_last() =~= old_views);
                    assert(views.last() == before_pending);
                    assert(bytes@.take(i + 1) =~= bytes@.take(i as int).push(b));
                    assert(start + bytes@.take(i + 1) =~= joined_lines(views) + pending@);
                }
            } else {
                pending.push(b);
                proof {
                    let j = joined_lines(lines@.map_values(|l: Vec<u8>| l@));
                    assert(bytes@.take(i + 1) =~= bytes@.take(i as int).push(b));
                    assert(start + bytes@.take(i + 1) =~= (start + bytes@.take(i as int)).push(b));
                    assert((j + before_pending).push(b) =~= j + before_pending.push(b));
                    assert(start + bytes@.take(i + 1) =~= joined_lines(lines@.map_values(|l: Vec<u8>| l@)) + pending@);
                }
            }
            i = i + 1;
        }
        assert(bytes@.take(i as int) =~= bytes@);
        self.pending = pending;
        lines
    }

    /// Ends the stream: the bytes after the last line feed, if there are any.
    pub fn finish(self) -> (rest: Option<Vec<u8>>)
        ensures
            match rest {
                Some(r) => r@ == self.pending() && r@.len() > 0,
                None => self.pending().len() == 0,
            },
    {
        let LineBuffer { pending } = self;
        if pending.len() == 0 {
            None
        } else {
            Some(pending)
        }
    }
}

/// A text without a dot followed by `.` and more: its first dot is the one
/// after it.
proof fn lemma_first_dot_after(t: Seq<char>, rest: Seq<char>)
    requires
        forall|k: int| 0 <= k < t.len() ==> t[k] != '.',
    ensures
        first_dot(t + seq!['.'] + rest) == t.len(),
    decreases t.len(),
{
    let s = t + seq!['.'] + rest;
    if t.len() > 0 {
        assert(s[0] == t[0]);
        assert(s.drop_first() =~= t.drop_first() + seq!['.'] + rest);
        lemma_first_dot_after(t.drop_first(), rest);
    } else {
        assert(s[0] == '.');
    }
}

/// A stdin spec `pipe:` + `t` + `.stdout` names the stdout of target `t`,
/// and `pipe:` + `t` + `.stderr` its stderr, for any target name `t` without
/// a dot.
pub proof fn law_pipe_spec_names_stream(t: Seq<char>)
    requires
        forall|k: int| 0 <= k < t.len() ==> t[k] != '.',
    ensures
        pipe_of("pipe:"@ + t + ".stdout"@) == Some(Ok::<(Seq<char>, StreamKind), ProcessErrorView>((t, StreamKind::Stdout))),
        pipe_of("pipe:"@ + t + ".stderr"@) == Some(Ok::<(Seq<char>, StreamKind), ProcessErrorView>((t, StreamKind::Stderr))),
{
    reveal_strlit("pipe:");
    reveal_strlit(".stdout");
    reveal_strlit(".stderr");
    reveal_strlit("stdout");
    reveal_strlit("stderr");
    let out = "pipe:"@ + t + ".stdout"@;
    let err = "pipe:"@ + t + ".stderr"@;
    assert("pipe:"@.is_prefix_of(out)) by {
        assert(out.take(5) =~= "pipe:"@);
    }
    assert("pipe:"@.is_prefix_of(err)) by {
        assert(err.take(5) =~= "pipe:"@);
    }
    let so = out.skip(5);
    let se = err.skip(5);
    assert(so =~= t + seq!['.'] + "stdout"@);
    assert(se =~= t + seq!['.'] + "stderr"@);
    lemma_first_dot_after(t, "stdout"@);
    lemma_first_dot_after(t, "stderr"@);
    assert(so.take(t.len() as int) =~= t);
    assert(se.take(t.len() as int) =~= t);
    assert(so.skip(t.len() as int + 1) =~= "stdout"@);
    assert(se.skip(t.len() as int + 1) =~= "stderr"@);
    assert("stdout"@ != "stderr"@) by {
        assert("stdout"@[3] != "stderr"@[3]);
    }
}

/// A target whose stdin spec is `pipe:` + `t` + `.stdout` (or `.stderr`),
/// alone in the order, gets one link: from `t`'s stdout (or stderr) into
/// its own stdin.
pub proof fn law_pipe_links_one_consumer(cfg: Config, consumer: Seq<char>, t: Seq<char>, to_stdout: bool)
    requires
        forall|k: int| 0 <= k < t.len() ==> t[k] != '.',
        fd_entry(cfg.lookup(consumer), "stdin"@) == Some(
            "pipe:"@ + t + if to_stdout { ".stdout"@ } else { ".stderr"@ },
        ),
    ensures
        pipe_plan(cfg, seq![consumer]) == Ok::<Seq<(Seq<char>, Seq<char>, StreamKind)>, ProcessErrorView>(
            seq![(consumer, t, if to_stdout { StreamKind::Stdout } else { StreamKind::Stderr })],
        ),
{
    law_pipe_spec_names_stream(t);
    let order = seq![consumer];
    assert(order.drop_last() =~= Seq::<Seq<char>>::empty());
    assert(pipe_plan(cfg, order.drop_last()) == Ok::<Seq<(Seq<char>, Seq<char>, StreamKind)>, ProcessErrorView>(Seq::empty()));
    assert(Seq::<(Seq<char>, Seq<char>, StreamKind)>::empty().push(
        (consumer, t, if to_stdout { StreamKind::Stdout } else { StreamKind::Stderr }),
    ) =~= seq![(consumer, t, if to_stdout { StreamKind::Stdout } else { StreamKind::Stderr })]);
}

/// With no output spec, or the spec `inherit`, the sink is the fallback
/// given, whatever it is; `null` discards the output.
pub proof fn law_sink_defaults_to_fallback(fallback: OutputSinkView)
    ensures
        sink_plan(None, fallback) == Ok::<OutputSinkView, ProcessErrorView>(fallback),
        sink_plan(Some("inherit"@), fallback) == Ok::<OutputSinkView, ProcessErrorView>(fallback),
        sink_plan(Some("null"@), fallback) == Ok::<OutputSinkView, ProcessErrorView>(OutputSinkView::Null),
{
    reveal_strlit("inherit");
    reveal_strlit("null");
    assert("null"@ != "inherit"@) by {
        assert("null"@.len() != "inherit"@.len());
    }
}

/// The stdin of a target: inherited where no spec is given or the spec is
/// `inherit`, closed with `null`, read from the file named after `file:`, and
/// read from a pipe with `pipe:`.
pub proof fn law_stdin_spec_forms(t: Target, rest: Seq<char>)
    ensures
        fd_entry(t, "stdin"@) is None ==> stdin_plan(t) == Ok::<StdinSourceView, ProcessErrorView>(StdinSourceView::Inherit),
        fd_entry(t, "stdin"@) == Some("inherit"@) ==> stdin_plan(t) == Ok::<StdinSourceView, ProcessErrorView>(StdinSourceView::Inherit),
        fd_entry(t, "stdin"@) == Some("null"@) ==> stdin_plan(t) == Ok::<StdinSourceView, ProcessErrorView>(StdinSourceView::Null),
        fd_entry(t, "stdin"@) == Some("file:"@ + rest) ==> stdin_plan(t) == Ok::<StdinSourceView, ProcessErrorView>(StdinSourceView::File(rest)),
        fd_entry(t, "stdin"@) == Some("pipe:"@ + rest) ==> stdin_plan(t) == Ok::<StdinSourceView, ProcessErrorView>(StdinSourceView::Pipe),
{
    reveal_strlit("inherit");
    reveal_strlit("null");
    reveal_strlit("file:");
    reveal_strlit("pipe:");
    let f = "file:"@ + rest;
    let q = "pipe:"@ + rest;
    assert("null"@ != "inherit"@) by {
        assert("null"@.len() != "inherit"@.len());
    }
    assert(f[0] == 'f' && q[0] == 'p');
    assert(f.take(5) =~= "file:"@);
    assert(q.take(5) =~= "pipe:"@);
    assert(f.skip(5) =~= rest);
    assert(f != "inherit"@ && f != "null"@);
    assert(q != "inherit"@ && q != "null"@);
    assert(!"file:"@.is_prefix_of(q)) by {
        assert(q[0] != "file:"@[0]);
    }
}

/// An output spec `file:` + `path` writes to `path`, for a path that does not
/// itself start with `file:`.
pub proof fn law_sink_file(fallback: OutputSinkView, path: Seq<char>)
    requires
        !"file:"@.is_prefix_of(path),
    ensures
        sink_plan(Some("file:"@ + path), fallback) == Ok::<OutputSinkView, ProcessErrorView>(OutputSinkView::File(path)),
{
    reveal_strlit("inherit");
    reveal_strlit("null");
    reveal_strlit("file:");
    let f = "file:"@ + path;
    assert(f[0] == 'f');
    assert(f != "inherit"@ && f != "null"@);
    assert(f.take(5) =~= "file:"@);
    assert(f.skip(5) =~= path);
    assert(trim_prefixes(f, "file:"@) == trim_prefixes(path, "file:"@));
}

/// `SIGINT` and `SIGKILL` stop with those signals; no name, or any other
/// name, stops with `SIGTERM`.
pub proof fn law_stop_signal_names(other: Seq<char>)
    requires
        other != "SIGINT"@,
        other != "SIGKILL"@,
    ensures
        signal_of(Some("SIGINT"@)) == StopSignal::Interrupt,
        signal_of(Some("SIGKILL"@)) == StopSignal::Kill,
        signal_of(None) == StopSignal::Terminate,
        signal_of(Some(other)) == StopSignal::Terminate,
{
    reveal_strlit("SIGINT");
    reveal_strlit("SIGKILL");
    reveal_strlit("SIGTERM");
    assert("SIGINT"@ != "SIGKILL"@) by {
        assert("SIGINT"@.len() != "SIGKILL"@.len());
    }
    assert("SIGTERM"@ != "SIGINT"@ && "SIGTERM"@ != "SIGKILL"@) by {
        assert("SIGTERM"@[4] != "SIGINT"@[4]);
        assert("SIGTERM"@[4] != "SIGKILL"@[4]);
    }
}

} // verus!
