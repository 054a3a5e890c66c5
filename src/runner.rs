//! The choices a run makes before the query engine starts: which engine,
//! which kind of result, and which input strategy to fall back on.
use vstd::prelude::*;

verus! {

/// The engine asked for on the command line.
#[derive(Debug, Clone, Copy, PartialEq, Eq, Structural)]
pub enum EngineArg {
    Main,
    Recursive,
}

/// The kind of result asked for on the command line.
#[derive(Debug, Clone, Copy, PartialEq, Eq, Structural)]
pub enum ResultArg {
    Bytes,
    Count,
}

/// The engine a run uses.
#[derive(Debug, Clone, Copy, PartialEq, Eq, Structural)]
pub enum ResolvedEngine {
    Recursive,
    Main,
}

/// What a run prints: the number of matches, or their byte offsets.
#[derive(Debug, Clone, Copy, PartialEq, Eq, Structural)]
pub enum ResolvedOutput {
    Count,
    Index,
}

/// How the input document is read.
#[derive(Debug, Clone, Copy, PartialEq, Eq, Structural)]
pub enum ResolvedInputKind {
    Mmap,
    Owned,
    Buffered,
}

/// Byte offsets for `Bytes`, a count for `Count`.
pub fn resolve_output(result_arg: ResultArg) -> (r: ResolvedOutput)
    ensures
        r == (match result_arg {
            ResultArg::Bytes => ResolvedOutput::Index,
            ResultArg::Count => ResolvedOutput::Count,
        }),
{
    match result_arg {
        ResultArg::Bytes => ResolvedOutput::Index,
        ResultArg::Count => ResolvedOutput::Count,
    }
}

/// The engine named by the argument.
pub fn resolve_engine(engine_arg: EngineArg) -> (r: ResolvedEngine)
    ensures
        r == (match engine_arg {
            EngineArg::Main => ResolvedEngine::Main,
            EngineArg::Recursive => ResolvedEngine::Recursive,
        }),
{
    match engine_arg {
        EngineArg::Main => ResolvedEngine::Main,
        EngineArg::Recursive => ResolvedEngine::Recursive,
    }
}

/// An input source with the strategy chosen to read it and, where reading it
/// that way may fail, the strategy to try next.
pub struct ResolvedInput<F> {
    file: F,
    kind: ResolvedInputKind,
    fallback_kind: Option<ResolvedInputKind>,
}

impl<F> ResolvedInput<F> {
    /// The source.
    pub closed spec fn source(&self) -> F {
        self.file
    }

    /// The strategy to read the source with.
    pub closed spec fn strategy(&self) -> ResolvedInputKind {
        self.kind
    }

    /// The strategy to try when the first one fails.
    pub closed spec fn fallback_strategy(&self) -> Option<ResolvedInputKind> {
        self.fallback_kind
    }

    pub fn new(file: F, kind: ResolvedInputKind, fallback_kind: Option<ResolvedInputKind>) -> (r: Self)
        ensures
            r.source() == file,
            r.strategy() == kind,
            r.fallback_strategy() == fallback_kind,
    {
        ResolvedInput { file, kind, fallback_kind }
    }

    pub fn kind(&self) -> (r: ResolvedInputKind)
        ensures
            r == self.strategy(),
    {
        self.kind
    }

    pub fn fallback_kind(&self) -> (r: Option<ResolvedInputKind>)
        ensures
            r == self.fallback_strategy(),
    {
        self.fallback_kind
    }

    pub fn file(&self) -> (r: &F)
        ensures
            *r == self.source(),
    {
        &self.file
    }

    /// The input to retry with once its strategy has failed: the same source
    /// read with the fallback strategy, which has no fallback of its own; or,
    /// with no fallback strategy, the source back, for the failure to be
    /// reported.
    pub fn fall_back(self) -> (r: Result<Self, F>)
        ensures
            match r {
                Ok(next) => self.fallback_strategy() == Some(next.strategy())
                    && next.fallback_strategy() is None && next.source() == self.source(),
                Err(file) => self.fallback_strategy() is None && file == self.source(),
            },
    {
        match self.fallback_kind {
            Some(kind) => Ok(ResolvedInput { file: self.file, kind, fallback_kind: None }),
            None => Err(self.file),
        }
    }
}

} // verus!
