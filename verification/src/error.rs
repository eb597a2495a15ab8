//! What can be wrong with a configuration or a request for targets.

use vstd::prelude::*;
use crate::text::{debug_form, debug_quote, text};

verus! {

/// A problem found in the configuration or in the targets asked for.
#[derive(Clone, Debug)]
pub enum GraphError {
    /// A target whose `cmd` is empty.
    MissingCommand { target: String },
    /// A target whose `wait_for` names more than one strategy.
    ConflictingReadiness { target: String },
    /// A target that depends on a name that the configuration lacks.
    UnknownDependency { target: String, dependency: String },
    /// A name asked for, or reached through dependencies, that the configuration lacks.
    UnknownTarget { target: String },
    /// The dependencies of the targets asked for admit no start order.
    Cycle,
}

/// A `GraphError` with its names as character sequences.
pub enum GraphErrorView {
    MissingCommand(Seq<char>),
    ConflictingReadiness(Seq<char>),
    UnknownDependency(Seq<char>, Seq<char>),
    UnknownTarget(Seq<char>),
    Cycle,
}

impl View for GraphError {
    type V = GraphErrorView;

    open spec fn view(&self) -> GraphErrorView {
        match self {
            GraphError::MissingCommand { target } => GraphErrorView::MissingCommand(target@),
            GraphError::ConflictingReadiness { target } => GraphErrorView::ConflictingReadiness(
                target@,
            ),
            GraphError::UnknownDependency { target, dependency } =>
                GraphErrorView::UnknownDependency(target@, dependency@),
            GraphError::UnknownTarget { target } => GraphErrorView::UnknownTarget(target@),
            GraphError::Cycle => GraphErrorView::Cycle,
        }
    }
}

/// The text that reports a graph error.
pub open spec fn graph_message(e: GraphErrorView) -> Seq<char> {
    match e {
        GraphErrorView::MissingCommand(t) => "target "@ + debug_form(t) + ": cmd is required"@,
        GraphErrorView::ConflictingReadiness(t) => "target "@ + debug_form(t)
            + ": wait_for must specify at most one strategy"@,
        GraphErrorView::UnknownDependency(t, d) => "target "@ + debug_form(t)
            + ": depends on unknown target "@ + debug_form(d),
        GraphErrorView::UnknownTarget(t) => "unknown target "@ + debug_form(t),
        GraphErrorView::Cycle => "cycle detected in dependency graph"@,
    }
}

impl GraphError {
    /// The message that reports this error.
    pub fn message(&self) -> (m: String)
        ensures
            m@ == graph_message(self@),
    {
        match self {
            GraphError::MissingCommand { target } => {
                text("target ").concat(debug_quote(target.as_str()).as_str()).concat(
                    ": cmd is required",
                )
            },
            GraphError::ConflictingReadiness { target } => {
                text("target ").concat(debug_quote(target.as_str()).as_str()).concat(
                    ": wait_for must specify at most one strategy",
                )
            },
            GraphError::UnknownDependency { target, dependency } => {
                text("target ").concat(debug_quote(target.as_str()).as_str()).concat(
                    ": depends on unknown target ",
                ).concat(debug_quote(dependency.as_str()).as_str())
            },
            GraphError::UnknownTarget { target } => {
                text("unknown target ").concat(debug_quote(target.as_str()).as_str())
            },
            GraphError::Cycle => text("cycle detected in dependency graph"),
        }
    }
}


/// A problem found while preparing a target's process.
#[derive(Clone, Debug)]
pub enum ProcessError {
    /// A `pipe:` stdin source without a `.` between target and stream.
    InvalidPipeSource { spec: String },
    /// A `pipe:` stdin source whose stream is neither `stdout` nor `stderr`.
    UnsupportedPipeStream { stream: String },
    /// A stdin descriptor spec of no known form.
    UnsupportedStdin { spec: String },
    /// An output descriptor spec of no known form.
    UnsupportedSink { spec: String },
    /// A target without a program to run.
    EmptyCommand { target: String },
}

/// A `ProcessError` with its texts as character sequences.
pub enum ProcessErrorView {
    InvalidPipeSource(Seq<char>),
    UnsupportedPipeStream(Seq<char>),
    UnsupportedStdin(Seq<char>),
    UnsupportedSink(Seq<char>),
    EmptyCommand(Seq<char>),
}

impl View for ProcessError {
    type V = ProcessErrorView;

    open spec fn view(&self) -> ProcessErrorView {
        match self {
            ProcessError::InvalidPipeSource { spec } => ProcessErrorView::InvalidPipeSource(spec@),
            ProcessError::UnsupportedPipeStream { stream } => ProcessErrorView::UnsupportedPipeStream(stream@),
            ProcessError::UnsupportedStdin { spec } => ProcessErrorView::UnsupportedStdin(spec@),
            ProcessError::UnsupportedSink { spec } => ProcessErrorView::UnsupportedSink(spec@),
            ProcessError::EmptyCommand { target } => ProcessErrorView::EmptyCommand(target@),
        }
    }
}

/// The text that reports a process error.
pub open spec fn process_message(e: ProcessErrorView) -> Seq<char> {
    match e {
        ProcessErrorView::InvalidPipeSource(s) => "invalid pipe source "@ + debug_form(s),
        ProcessErrorView::UnsupportedPipeStream(s) => "unsupported pipe source stream "@ + debug_form(s),
        ProcessErrorView::UnsupportedStdin(s) => "unsupported stdin fd spec "@ + debug_form(s),
        ProcessErrorView::UnsupportedSink(s) => "unsupported output sink "@ + debug_form(s),
        ProcessErrorView::EmptyCommand(t) => "target "@ + debug_form(t) + ": empty cmd"@,
    }
}

impl ProcessError {
    /// The message that reports this error.
    pub fn message(&self) -> (m: String)
        ensures
            m@ == process_message(self@),
    {
        match self {
            ProcessError::InvalidPipeSource { spec } => {
                text("invalid pipe source ").concat(debug_quote(spec.as_str()).as_str())
            },
            ProcessError::UnsupportedPipeStream { stream } => {
                text("unsupported pipe source stream ").concat(debug_quote(stream.as_str()).as_str())
            },
            ProcessError::UnsupportedStdin { spec } => {
                text("unsupported stdin fd spec ").concat(debug_quote(spec.as_str()).as_str())
            },
            ProcessError::UnsupportedSink { spec } => {
                text("unsupported output sink ").concat(debug_quote(spec.as_str()).as_str())
            },
            ProcessError::EmptyCommand { target } => {
                text("target ").concat(debug_quote(target.as_str()).as_str()).concat(": empty cmd")
            },
        }
    }
}

} // verus!
