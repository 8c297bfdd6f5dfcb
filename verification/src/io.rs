//! The readiness-based suspension point: try at once, else subscribe.

use vstd::prelude::*;
use crate::interest::Interest;
use crate::interest::ResourceId;
use crate::outcome::PollResult;
use crate::reactor::has_resource;
use crate::reactor::subscribed;
use crate::reactor::ReactorError;
use crate::task::Context;
use crate::task::Task;

verus! {

/// Result of one non-blocking try on a resource.
pub enum Attempt<T, E> {
    /// The operation went through.
    Done(T),
    /// The resource is not ready; trying again later may succeed.
    WouldBlock,
    /// The operation failed for good.
    Failed(E),
}

/// A resource on which an operation can be tried without blocking.
pub trait Resource {
    type Item;

    type Error;

    /// Whether one try can take the resource from this state to `after` and
    /// give `attempt`. A kind of resource says here what its tries do. Unless
    /// it does, the relation holds of every try: of a resource of the outside
    /// world nothing is known beforehand.
    open spec fn tried(&self, after: &Self, attempt: Attempt<Self::Item, Self::Error>) -> bool {
        true
    }

    /// Tries the operation once and returns at once.
    fn try_once(&mut self) -> (attempt: Attempt<Self::Item, Self::Error>)
        ensures
            old(self).tried(final(self), attempt),
    ;
}

/// A resource that is not ready for a given number of tries and then gives
/// its value at every try.
pub struct ReadyAfter {
    pub waits: u32,
    pub value: u64,
}

impl Resource for ReadyAfter {
    type Item = u64;

    type Error = ();

    open spec fn tried(&self, after: &Self, attempt: Attempt<u64, ()>) -> bool {
        if self.waits == 0 {
            attempt == Attempt::<u64, ()>::Done(self.value) && *after == *self
        } else {
            attempt is WouldBlock && after.waits == self.waits - 1 && after.value == self.value
        }
    }

    fn try_once(&mut self) -> (attempt: Attempt<u64, ()>) {
        if self.waits == 0 {
            Attempt::Done(self.value)
        } else {
            self.waits = self.waits - 1;
            Attempt::WouldBlock
        }
    }
}

/// Why a readiness-based task failed.
pub enum IoError<E> {
    /// The operation on the resource failed.
    Resource(E),
    /// The reactor refused the subscription.
    Reactor(ReactorError),
}

/// A task that tries an operation on a resource each time it is polled and
/// waits for the resource's readiness in between.
pub struct IoFuture<R> {
    pub resource: R,
    pub id: ResourceId,
    pub interest: Interest,
}

/// Whether `after` is `before` with the polling task subscribed to
/// `resource`, and nothing else changed.
pub open spec fn subscribed_in(
    before: Context,
    after: Context,
    resource: ResourceId,
    interest: Interest,
) -> bool {
    &&& after.reactor@ == subscribed(
        before.reactor@,
        before.reactor.issued(),
        resource,
        interest,
        before.waker,
    )
    &&& after.reactor.issued() == if has_resource(before.reactor@, resource) {
        before.reactor.issued()
    } else {
        before.reactor.issued() + 1
    }
    &&& after.waker == before.waker
    &&& after.now == before.now
    &&& after.timers == before.timers
    &&& after.woken == before.woken
}

/// Whether the reactor of `cx` can take a subscription to `resource`.
pub open spec fn can_subscribe(cx: Context, resource: ResourceId) -> bool {
    has_resource(cx.reactor@, resource) || cx.reactor.issued() < usize::MAX
}

/// Whether `answer` and the context `after` are what comes of `attempt`
/// for a task that polls on the context `before` and waits for `interest` in
/// `resource`.
///
/// A finished operation is `Ready` and a failed one is `Failed`; neither
/// touches the context. On `WouldBlock` the polling task is subscribed to the
/// resource's readiness and the answer is `Pending`; where the reactor has no
/// token left for that, the answer is `Failed` and the context is unchanged.
pub open spec fn resolved<T, E>(
    attempt: Attempt<T, E>,
    resource: ResourceId,
    interest: Interest,
    before: Context,
    after: Context,
    answer: PollResult<T, IoError<E>>,
) -> bool {
    match attempt {
        Attempt::Done(value) => answer == PollResult::<T, IoError<E>>::Ready(value) && after
            == before,
        Attempt::Failed(error) => answer == PollResult::<T, IoError<E>>::Failed(
            IoError::Resource(error),
        ) && after == before,
        Attempt::WouldBlock => if can_subscribe(before, resource) {
            answer is Pending && subscribed_in(before, after, resource, interest)
        } else {
            &&& answer == PollResult::<T, IoError<E>>::Failed(
                IoError::Reactor(ReactorError::TokensExhausted),
            )
            &&& after.reactor@ == before.reactor@
            &&& after.reactor.issued() == before.reactor.issued()
            &&& after.waker == before.waker
            &&& after.now == before.now
            &&& after.timers == before.timers
            &&& after.woken == before.woken
        },
    }
}

/// Turns the result of one try into the answer of the poll, as [`resolved`]
/// says.
pub fn resolve_attempt<T, E>(
    attempt: Attempt<T, E>,
    resource: ResourceId,
    interest: Interest,
    cx: &mut Context,
) -> (r: PollResult<T, IoError<E>>)
    ensures
        resolved(attempt, resource, interest, *old(cx), *final(cx), r),
{
    match attempt {
        Attempt::Done(value) => PollResult::Ready(value),
        Attempt::Failed(error) => PollResult::Failed(IoError::Resource(error)),
        Attempt::WouldBlock => {
            let waker = cx.waker;
            match cx.reactor.subscribe(resource, interest, waker) {
                Ok(_) => PollResult::Pending,
                Err(e) => PollResult::Failed(IoError::Reactor(e)),
            }
        },
    }
}

impl<R: Resource> IoFuture<R> {
    /// A task for the operation of `resource`, which the reactor knows as
    /// `id`, waiting for `interest`.
    pub fn new(resource: R, id: ResourceId, interest: Interest) -> (task: IoFuture<R>)
        ensures
            task.resource == resource,
            task.id == id,
            task.interest == interest,
    {
        IoFuture { resource, id, interest }
    }
}

impl<R: Resource> Task for IoFuture<R> {
    type Output = R::Item;

    type Error = IoError<R::Error>;

    open spec fn polled(
        &self,
        after: &Self,
        before: Context,
        then: Context,
        answer: PollResult<R::Item, IoError<R::Error>>,
    ) -> bool {
        &&& after.id == self.id
        &&& after.interest == self.interest
        &&& exists|attempt: Attempt<R::Item, R::Error>|
            {
                &&& #[trigger] self.resource.tried(&after.resource, attempt)
                &&& resolved(attempt, self.id, self.interest, before, then, answer)
            }
    }

    /// Makes one try on the resource and answers as [`resolved`] says for
    /// what the try gave.
    fn poll(&mut self, cx: &mut Context) -> (r: PollResult<R::Item, IoError<R::Error>>)
        ensures
            final(self).id == old(self).id,
            final(self).interest == old(self).interest,
            exists|attempt: Attempt<R::Item, R::Error>|
                {
                    &&& #[trigger] old(self).resource.tried(&final(self).resource, attempt)
                    &&& resolved(
                        attempt,
                        old(self).id,
                        old(self).interest,
                        *old(cx),
                        *final(cx),
                        r,
                    )
                },
            r is Ready ==> *final(cx) == *old(cx),
            r matches PollResult::Failed(IoError::Resource(_)) ==> *final(cx) == *old(cx),
            r is Pending ==> can_subscribe(*old(cx), old(self).id) && subscribed_in(
                *old(cx),
                *final(cx),
                old(self).id,
                old(self).interest,
            ),
            r matches PollResult::Failed(IoError::Reactor(e)) ==> e
                == ReactorError::TokensExhausted && !can_subscribe(*old(cx), old(self).id),
    {
        let attempt = self.resource.try_once();
        let ghost given = attempt;
        let r = resolve_attempt(attempt, self.id, self.interest, cx);
        proof {
            assert(old(self).resource.tried(&self.resource, given));
        }
        r
    }
}

} // verus!
