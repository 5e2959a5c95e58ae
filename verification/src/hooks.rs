//! The decisions of the state, task and resource hooks that do not need the
//! hook storage: what message a state setter sends, which scope a task's
//! setters carry, and how a resource slot takes a result.

use vstd::prelude::*;

use crate::lanes::DEFAULT_LANE;
use crate::state::{AsyncMessage, AsyncScope, FiberId};

verus! {

/// A handle that sends updates of one state hook from async work.
#[derive(Debug, Clone, Copy, PartialEq, Eq, Structural)]
pub struct StateSetter {
    owner: FiberId,
    hook_index: usize,
    scope: Option<AsyncScope>,
}

impl View for StateSetter {
    /// The hook's owner and index, and the scope the setter is bound to.
    type V = (FiberId, usize, Option<AsyncScope>);

    closed spec fn view(&self) -> Self::V {
        (self.owner, self.hook_index, self.scope)
    }
}

/// The message a setter sends for an update.
pub open spec fn setter_message(s: (FiberId, usize, Option<AsyncScope>), update: u64) -> AsyncMessage {
    AsyncMessage { owner: s.0, hook_index: s.1, lane: DEFAULT_LANE, scope: s.2, update }
}

impl StateSetter {
    /// A setter for hook `hook_index` of `owner`, bound to no scope.
    pub fn new(owner: FiberId, hook_index: usize) -> (r: StateSetter)
        ensures
            r@ == (owner, hook_index, None::<AsyncScope>),
    {
        StateSetter { owner, hook_index, scope: None }
    }

    fn with_scope(self, scope: AsyncScope) -> (r: StateSetter)
        ensures
            r@ == (self@.0, self@.1, Some(scope)),
    {
        StateSetter { scope: Some(scope), ..self }
    }

    /// The message that replaces the state's value: the update identity
    /// stands for the assignment.
    pub fn set(&self, update: u64) -> (r: AsyncMessage)
        ensures
            r == setter_message(self@, update),
    {
        self.update(update)
    }

    /// The message that applies an update to the state, in the default lane,
    /// carrying the setter's scope.
    pub fn update(&self, update: u64) -> (r: AsyncMessage)
        ensures
            r == setter_message(self@, update),
    {
        AsyncMessage {
            owner: self.owner,
            hook_index: self.hook_index,
            lane: DEFAULT_LANE,
            scope: self.scope,
            update,
        }
    }
}

/// What a task run knows about itself: the scope of its hook's current run.
#[derive(Debug, Clone, Copy, PartialEq, Eq, Structural)]
pub struct TaskContext {
    scope: AsyncScope,
}

impl TaskContext {
    /// The context of run `generation` of task hook `hook_index` of `owner`.
    pub fn new(owner: FiberId, hook_index: usize, generation: u64) -> (r: TaskContext)
        ensures
            r.spec_scope() == (AsyncScope { owner, hook_index, generation }),
    {
        TaskContext { scope: AsyncScope { owner, hook_index, generation } }
    }

    pub closed spec fn spec_scope(&self) -> AsyncScope {
        self.scope
    }

    /// The setter bound to this run: its updates are dropped once the task
    /// restarts.
    pub fn scoped_setter(&self, setter: StateSetter) -> (r: StateSetter)
        ensures
            r@ == (setter@.0, setter@.1, Some(self.spec_scope())),
    {
        setter.with_scope(self.scope)
    }
}

/// What a resource loader is given.
#[derive(Debug, Clone, Copy, PartialEq, Eq, Structural)]
pub struct ResourceContext;

/// The state of a resource.
#[derive(Debug, Clone, PartialEq, Eq)]
pub enum AsyncValue<T, E> {
    Pending,
    Ready(T),
    Error(E),
}

/// The value of a resource hook and the run it belongs to.
#[derive(Debug)]
pub struct ResourceValueSlot<T, E> {
    pub value: AsyncValue<T, E>,
    pub generation: u64,
}

/// The generation after `g`; it stays at the largest value once there.
pub open spec fn next_generation(g: u64) -> u64 {
    if g == u64::MAX {
        g
    } else {
        (g + 1) as u64
    }
}

/// A new run's generation is past the old one's, so a result of the older
/// run is recognised as stale, unless the generation has reached its
/// largest value, where it stays.
pub proof fn law_next_generation(g: u64)
    ensures
        g < u64::MAX ==> next_generation(g) == g + 1,
        g == u64::MAX ==> next_generation(g) == g,
        next_generation(g) >= g,
        next_generation(g) != g ==> g < u64::MAX,
{
}

/// The generation of the next run of a task or resource.
pub fn bump_generation(g: u64) -> (r: u64)
    ensures
        r == next_generation(g),
{
    if g == u64::MAX {
        g
    } else {
        g + 1
    }
}

impl<T, E> ResourceValueSlot<T, E> {
    /// The slot of a first run: pending, generation one.
    pub fn new() -> (r: ResourceValueSlot<T, E>)
        ensures
            r.value == AsyncValue::<T, E>::Pending,
            r.generation == 1,
    {
        ResourceValueSlot { value: AsyncValue::Pending, generation: 1 }
    }

    /// Starts a new run: the value is pending again under the next
    /// generation, which is returned.
    pub fn restart(&mut self) -> (r: u64)
        ensures
            r == next_generation(old(self).generation),
            final(self).generation == r,
            final(self).value == AsyncValue::<T, E>::Pending,
    {
        self.generation = bump_generation(self.generation);
        self.value = AsyncValue::Pending;
        self.generation
    }

    /// A render with the hook's dependencies: when they equal those of the
    /// current run (`deps_changed` is false; the comparison is the
    /// dependency type's own equality) the run and its value stay and
    /// nothing restarts; otherwise a new run starts as in `restart`, and its
    /// generation is returned.
    pub fn refresh(&mut self, deps_changed: bool) -> (r: Option<u64>)
        ensures
            !deps_changed ==> r is None && *final(self) == *old(self),
            deps_changed ==> r == Some(next_generation(old(self).generation)) && final(self).generation
                == next_generation(old(self).generation) && final(self).value == AsyncValue::<T, E>::Pending,
    {
        if !deps_changed {
            return None;
        }
        Some(self.restart())
    }

    /// A run of `generation` finished with `result`: it becomes the value,
    /// unless a newer run has started, in which case nothing changes.
    pub fn resolve(&mut self, generation: u64, result: Result<T, E>)
        ensures
            old(self).generation != generation ==> *final(self) == *old(self),
            old(self).generation == generation ==> final(self).generation == generation
                && final(self).value == match result {
                Ok(v) => AsyncValue::<T, E>::Ready(v),
                Err(e) => AsyncValue::<T, E>::Error(e),
            },
    {
        if self.generation != generation {
            return;
        }
        self.value = match result {
            Ok(value) => AsyncValue::Ready(value),
            Err(error) => AsyncValue::Error(error),
        };
    }
}

} // verus!
