//! The resources whose lifecycle is followed, and the states they pass through.
use vstd::prelude::*;

verus! {

/// The kinds of resource that the analysis follows.
#[derive(Clone, Copy, Debug, PartialEq, Eq, Structural)]
pub enum ResourceKind {
    /// A guard of a mutual-exclusion lock.
    Lock,
    /// The handle of a spawned thread or task.
    SpawnedTask,
    /// A binding that holds an optional or fallible value.
    Optional,
}

/// The ways in which control leaves the straight line.
#[derive(Clone, Copy, Debug, PartialEq, Eq, Structural)]
pub enum ExitKind {
    Return,
    Panic,
    Break,
    Continue,
}

/// Where a resource stands in its lifecycle.
#[derive(Clone, Copy, Debug, PartialEq, Eq, Structural)]
pub enum ResourceState {
    /// Held: acquired and not yet resolved.
    Acquired,
    /// Resolved by a release, a join, an await, an abort, a check or, for the
    /// kinds that allow it, by the end of its scope.
    Released,
    /// Still held where the function was left.
    Leaked,
    /// Nothing is known: the acquisition was never reached.
    Unknown,
}

/// What can happen to a resource.
#[derive(Clone, Copy, Debug, PartialEq, Eq, Structural)]
pub enum Event {
    /// The resource is acquired (again).
    Acquire,
    /// The resource is released, joined, awaited, aborted or checked.
    Resolve,
    /// Control leaves the function by an exit at which the resource is owed.
    Exit,
}

impl ResourceKind {
    /// Whether a resource of this kind is resolved when its binding is dropped
    /// or its scope ends. A lock guard and an optional value are; a spawned
    /// task keeps running when its handle is dropped.
    pub open spec fn spec_scoped(self) -> bool {
        self != ResourceKind::SpawnedTask
    }

    /// Executable form of [`Self::spec_scoped`].
    #[verifier::when_used_as_spec(spec_scoped)]
    pub fn scoped(self) -> (r: bool)
        ensures
            r == self.spec_scoped(),
    {
        match self {
            ResourceKind::SpawnedTask => false,
            _ => true,
        }
    }

    /// Whether a resource of this kind has to be resolved before control
    /// leaves by `exit`. A lock must not be held across a panic; a spawned
    /// task must not be left behind by a return or a panic; an optional value
    /// owes nothing.
    pub open spec fn spec_owed_at(self, exit: ExitKind) -> bool {
        match self {
            ResourceKind::Lock => exit == ExitKind::Panic,
            ResourceKind::SpawnedTask => exit == ExitKind::Return || exit == ExitKind::Panic,
            ResourceKind::Optional => false,
        }
    }

    /// Executable form of [`Self::spec_owed_at`].
    #[verifier::when_used_as_spec(spec_owed_at)]
    pub fn owed_at(self, exit: ExitKind) -> (r: bool)
        ensures
            r == self.spec_owed_at(exit),
    {
        match self {
            ResourceKind::Lock => match exit {
                ExitKind::Panic => true,
                _ => false,
            },
            ResourceKind::SpawnedTask => match exit {
                ExitKind::Return => true,
                ExitKind::Panic => true,
                _ => false,
            },
            ResourceKind::Optional => false,
        }
    }
}

impl ResourceState {
    /// The state that follows `self` when `event` happens. An acquisition
    /// always leads to `Acquired`; only a held resource can be resolved or
    /// leaked; every other event leaves the state as it is.
    pub open spec fn spec_after(self, event: Event) -> ResourceState {
        match event {
            Event::Acquire => ResourceState::Acquired,
            Event::Resolve => if self == ResourceState::Acquired {
                ResourceState::Released
            } else {
                self
            },
            Event::Exit => if self == ResourceState::Acquired {
                ResourceState::Leaked
            } else {
                self
            },
        }
    }

    /// Executable form of [`Self::spec_after`].
    #[verifier::when_used_as_spec(spec_after)]
    pub fn after(self, event: Event) -> (r: ResourceState)
        ensures
            r == self.spec_after(event),
    {
        match event {
            Event::Acquire => ResourceState::Acquired,
            Event::Resolve => match self {
                ResourceState::Acquired => ResourceState::Released,
                _ => self,
            },
            Event::Exit => match self {
                ResourceState::Acquired => ResourceState::Leaked,
                _ => self,
            },
        }
    }

    /// Whether the resource is held in this state.
    pub open spec fn spec_is_held(self) -> bool {
        self == ResourceState::Acquired
    }

    /// Executable form of [`Self::spec_is_held`].
    #[verifier::when_used_as_spec(spec_is_held)]
    pub fn is_held(self) -> (r: bool)
        ensures
            r == self.spec_is_held(),
    {
        match self {
            ResourceState::Acquired => true,
            _ => false,
        }
    }
}

} // verus!
