//! The event model and the contract every tiering policy implements.
//!
//! The orchestration loop feeds a batch of filesystem events to a policy
//! through `ingest`, then asks it to `reorganize` storage. Policies keep all
//! tiering state themselves; the loop holds none.

use vstd::prelude::*;

verus! {

/// What happened to a path under the hot root.
#[derive(Clone, Copy, PartialEq, Eq, Structural, Debug)]
pub enum FsEventKind {
    Create,
    Modify,
    Remove,
    Access,
    Other,
}

/// A single filesystem event observed by the watcher.
///
/// `path` is the file's path relative to the hot root, as bytes; a file's
/// identity across tiers is this relative path. `timestamp` is a wall-clock
/// reading in seconds; events from one poll may share a timestamp.
pub struct AccessEvent {
    pub path: Vec<u8>,
    pub kind: FsEventKind,
    pub timestamp: u64,
}

/// The mathematical image of an `AccessEvent`.
pub struct EventModel {
    pub path: Seq<u8>,
    pub kind: FsEventKind,
    pub timestamp: int,
}

impl EventModel {
    /// True for the kinds that count as a touch of the file.
    pub open spec fn is_touch(&self) -> bool {
        self.kind == FsEventKind::Create || self.kind == FsEventKind::Modify
            || self.kind == FsEventKind::Access
    }
}

impl View for AccessEvent {
    type V = EventModel;

    open spec fn view(&self) -> EventModel {
        EventModel { path: self.path@, kind: self.kind, timestamp: self.timestamp as int }
    }
}

/// Why a configuration was rejected before a policy was built.
pub enum ConfigError {
    /// The policy requires at least one cold storage tier.
    NoColdTier,
    /// Two tier roots are equal or one contains the other.
    OverlappingTiers,
    /// A tier root is the empty path.
    EmptyTierPath,
    /// The requested policy name is not known.
    UnknownPolicy,
}

impl ConfigError {
    /// A short description, suitable for the diagnostic stream.
    pub fn describe(&self) -> &'static str {
        match self {
            ConfigError::NoColdTier => "at least one cold_storage tier is required",
            ConfigError::OverlappingTiers => "tier paths are equal or nested",
            ConfigError::EmptyTierPath => "a tier path is empty",
            ConfigError::UnknownPolicy => "unknown policy name",
        }
    }
}

/// Why a reorganization pass failed, and how the loop should react.
pub enum ReorganizeError {
    /// A single file migration failed; the file is retried next cycle.
    IoError(Vec<u8>),
    /// Tracked metadata contradicts on-disk reality for one file.
    InconsistentState(Vec<u8>),
    /// A tier root itself became inaccessible; the process must stop.
    FatalIoError(Vec<u8>),
}

impl ReorganizeError {
    /// True exactly for the kinds that must terminate the process.
    pub fn is_fatal(&self) -> (r: bool)
        ensures
            r == (self is FatalIoError),
    {
        match self {
            ReorganizeError::FatalIoError(_) => true,
            _ => false,
        }
    }

    /// A short description of the error kind.
    pub fn describe(&self) -> &'static str {
        match self {
            ReorganizeError::IoError(_) => "file migration failed",
            ReorganizeError::InconsistentState(_) => "tracked state contradicts disk",
            ReorganizeError::FatalIoError(_) => "tier root inaccessible",
        }
    }

    /// The path the error is about.
    pub fn path(&self) -> &Vec<u8> {
        match self {
            ReorganizeError::IoError(p) => p,
            ReorganizeError::InconsistentState(p) => p,
            ReorganizeError::FatalIoError(p) => p,
        }
    }
}

/// The contract all tiering policy engines implement.
///
/// Each orchestration cycle calls `ingest` with the freshly drained events,
/// then `reorganize` to let the engine migrate files between tiers.
pub trait PolicyEngine {
    /// The engine's internal well-formedness condition. Constructors
    /// establish it; `ingest` and `reorganize` preserve it.
    spec fn inv(&self) -> bool;

    /// Validate that the tier layout is acceptable for this policy, before
    /// any engine is built. The default accepts any configuration;
    /// policies override it to reject what they cannot serve.
    fn validate_config(hot_storage: &Vec<u8>, cold_storage: &Vec<Vec<u8>>) -> (r: Result<
        (),
        ConfigError,
    >)
        default_ensures
            r is Ok,
    {
        Ok(())
    }

    /// Feed a batch of new access events into the engine's bookkeeping.
    fn ingest(&mut self, events: &[AccessEvent])
        requires
            old(self).inv(),
        ensures
            final(self).inv(),
    ;

    /// Examine internal state and decide any migrations between tiers.
    fn reorganize(&mut self) -> (r: Result<(), ReorganizeError>)
        requires
            old(self).inv(),
        ensures
            final(self).inv(),
    ;
}

} // verus!
