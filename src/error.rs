//! The ways a resolution can fail. Every one of them ends the run.
use vstd::prelude::*;

verus! {

/// A failure, as contracts speak of it.
pub enum Fault {
    MissingVariable(Seq<char>),
    PathOutsideSandbox(Seq<char>),
    MissingSource(Seq<char>),
    UnknownPath(Seq<char>),
    UnresolvedTarget(Seq<char>),
    MalformedDirective(Seq<char>),
    CyclicReference(Seq<char>),
}

/// A failure of parsing or resolution.
#[derive(Debug)]
pub enum ResolveError {
    /// A `{{ name }}` placeholder names a variable that is not in scope;
    /// `available` lists the names that are.
    MissingVariable { name: String, available: Vec<String> },
    /// A `COPY`/`ADD` source resolves outside the sandbox root.
    PathOutsideSandbox { path: String },
    /// The text of this canonical path is not among the sources handed in.
    MissingSource { path: String },
    /// Where this absolute path leads on disk is not among the sources
    /// handed in.
    UnknownPath { path: String },
    /// Nothing exists at this absolute path.
    UnresolvedTarget { path: String },
    /// A line does not start with an upper-case directive name.
    MalformedDirective { line: String },
    /// An `EXTEND`/`INCLUDE` chain leads back into a file it came from.
    CyclicReference { path: String },
}

impl View for ResolveError {
    type V = Fault;

    open spec fn view(&self) -> Fault {
        match self {
            ResolveError::MissingVariable { name, .. } => Fault::MissingVariable(name@),
            ResolveError::PathOutsideSandbox { path } => Fault::PathOutsideSandbox(path@),
            ResolveError::MissingSource { path } => Fault::MissingSource(path@),
            ResolveError::UnknownPath { path } => Fault::UnknownPath(path@),
            ResolveError::UnresolvedTarget { path } => Fault::UnresolvedTarget(path@),
            ResolveError::MalformedDirective { line } => Fault::MalformedDirective(line@),
            ResolveError::CyclicReference { path } => Fault::CyclicReference(path@),
        }
    }
}

} // verus!
