//! The table that maps registered interests to tokens and tokens to wakers.
//!
//! The reactor keeps the bookkeeping side of readiness notification: which
//! resource is watched under which token and for which directions, and which
//! waker is to be fired when the token becomes ready. The blocking wait on the
//! operating system's multiplexer is done by a [`crate::driver::Driver`], which
//! reads [`Reactor::armed`] to learn what to watch and hands back the events
//! for [`Reactor::dispatch`].
//!
//! Wakers are one-shot: an event that fires a registration takes its waker, so
//! a task that suspends again binds a waker again. They are held in a hash
//! map from the token's number to the waker; the registrations themselves
//! keep the order in which they were made.

use vstd::prelude::*;
use std::collections::HashMap;
use crate::ids::Token;
use crate::ids::TaskId;
use crate::interest::Interest;
use crate::interest::ReadinessEvent;
use crate::interest::ResourceId;
use crate::waker::Waker;

verus! {

broadcast use vstd::std_specs::hash::group_hash_axioms;

/// Why a reactor operation was refused.
#[derive(Clone, Copy, Debug, PartialEq, Eq, Structural)]
pub enum ReactorError {
    /// Every token number has been handed out.
    TokensExhausted,
    /// The token names no registration, or was never handed out.
    UnknownToken,
    /// The token is registered for another resource, or the resource under
    /// another token.
    InUse,
    /// The wait on the multiplexer failed or can never return.
    WaitFailed,
    /// The multiplexer refused to watch a resource.
    RegistrationRefused,
}

/// One registered interest.
#[derive(Clone, Copy, Debug, PartialEq, Eq, Structural)]
pub struct Registration {
    pub token: Token,
    pub resource: ResourceId,
    pub interest: Interest,
    pub waker: Option<Waker>,
}

/// A registration without its waker.
#[derive(Clone, Copy)]
struct Slot {
    token: Token,
    resource: ResourceId,
    interest: Interest,
}

/// The token table of one runtime.
///
/// The registrations are kept in the order in which they were made; the
/// wakers are kept apart, in a hash map from a token's number to the waker
/// that is bound to it.
pub struct Reactor {
    next_token: usize,
    entries: Vec<Slot>,
    wakers: HashMap<usize, Waker>,
}

/// The registration that a slot and the waker map stand for.
spec fn join_one(slot: Slot, wakers: Map<usize, Waker>) -> Registration {
    Registration {
        token: slot.token,
        resource: slot.resource,
        interest: slot.interest,
        waker: if wakers.contains_key(slot.token.raw) {
            Some(wakers[slot.token.raw])
        } else {
            None
        },
    }
}

/// The table that the slots and the waker map stand for.
spec fn joined(slots: Seq<Slot>, wakers: Map<usize, Waker>) -> Seq<Registration> {
    Seq::new(slots.len(), |i: int| join_one(slots[i], wakers))
}

impl View for Reactor {
    type V = Seq<Registration>;

    closed spec fn view(&self) -> Seq<Registration> {
        joined(self.entries@, self.wakers@)
    }
}

/// No token and no resource is registered twice.
pub open spec fn table_wf(regs: Seq<Registration>) -> bool {
    forall|i: int, j: int|
        0 <= i < j < regs.len() ==> regs[i].token != regs[j].token && regs[i].resource
            != regs[j].resource
}

/// Whether some registration carries `token`.
pub open spec fn has_token(regs: Seq<Registration>, token: Token) -> bool {
    exists|i: int| 0 <= i < regs.len() && (#[trigger] regs[i]).token == token
}

/// Whether `resource` is registered.
pub open spec fn has_resource(regs: Seq<Registration>, resource: ResourceId) -> bool {
    exists|i: int| 0 <= i < regs.len() && (#[trigger] regs[i]).resource == resource
}

/// Whether `token` is the token under which `resource` is registered.
pub open spec fn registered_as(regs: Seq<Registration>, resource: ResourceId, token: Token) -> bool {
    exists|i: int|
        0 <= i < regs.len() && (#[trigger] regs[i]).resource == resource && regs[i].token == token
}

/// The table after the interest of `resource` was replaced.
pub open spec fn rearmed(regs: Seq<Registration>, resource: ResourceId, interest: Interest) -> Seq<
    Registration,
> {
    regs.map_values(
        |r: Registration|
            if r.resource == resource {
                Registration { interest, ..r }
            } else {
                r
            },
    )
}

/// The table after `waker` was bound to `token`.
pub open spec fn bound(regs: Seq<Registration>, token: Token, waker: Waker) -> Seq<Registration> {
    regs.map_values(
        |r: Registration|
            if r.token == token {
                Registration { waker: Some(waker), ..r }
            } else {
                r
            },
    )
}

/// The table after `resource` was registered for `interest` and `waker` bound
/// to its token, where `next` is the number of the next fresh token.
pub open spec fn subscribed(
    regs: Seq<Registration>,
    next: nat,
    resource: ResourceId,
    interest: Interest,
    waker: Waker,
) -> Seq<Registration> {
    if has_resource(regs, resource) {
        regs.map_values(
            |r: Registration|
                if r.resource == resource {
                    Registration { interest, waker: Some(waker), ..r }
                } else {
                    r
                },
        )
    } else {
        regs.push(
            Registration { token: Token { raw: next as usize }, resource, interest, waker: Some(waker) },
        )
    }
}

/// The waker that is bound under `token`, if the token is registered and has
/// one.
pub open spec fn holder_of(regs: Seq<Registration>, token: Token) -> Option<Waker> {
    if has_token(regs, token) {
        regs[choose|i: int| 0 <= i < regs.len() && (#[trigger] regs[i]).token == token].waker
    } else {
        None
    }
}

/// Whether `event` fires the registration: it is for its token, a waker is
/// bound, and a direction that is asked for is reported.
pub open spec fn fires(r: Registration, event: ReadinessEvent) -> bool {
    r.token == event.token && r.waker is Some && r.interest.spec_matches(event)
}

/// The registration after `event`: without its waker where the event fires it.
pub open spec fn disarmed(r: Registration, event: ReadinessEvent) -> Registration {
    if fires(r, event) {
        Registration { waker: None, ..r }
    } else {
        r
    }
}

/// The table after one event.
pub open spec fn after_event(regs: Seq<Registration>, event: ReadinessEvent) -> Seq<Registration> {
    regs.map_values(|r: Registration| disarmed(r, event))
}

/// The wakers that one event fires, in table order.
pub open spec fn woken_by(regs: Seq<Registration>, event: ReadinessEvent) -> Seq<Waker>
    decreases regs.len(),
{
    if regs.len() == 0 {
        Seq::empty()
    } else {
        let before = woken_by(regs.drop_last(), event);
        if fires(regs.last(), event) {
            before.push(regs.last().waker->0)
        } else {
            before
        }
    }
}

/// The table after a sequence of events, taken in order.
pub open spec fn after_events(regs: Seq<Registration>, events: Seq<ReadinessEvent>) -> Seq<
    Registration,
>
    decreases events.len(),
{
    if events.len() == 0 {
        regs
    } else {
        after_event(after_events(regs, events.drop_last()), events.last())
    }
}

/// The wakers that a sequence of events fires, in the order of the events.
pub open spec fn woken_by_all(regs: Seq<Registration>, events: Seq<ReadinessEvent>) -> Seq<Waker>
    decreases events.len(),
{
    if events.len() == 0 {
        Seq::empty()
    } else {
        woken_by_all(regs, events.drop_last()) + woken_by(
            after_events(regs, events.drop_last()),
            events.last(),
        )
    }
}

/// Whether the registration's waker belongs to `task`.
pub open spec fn held_by(r: Registration, task: TaskId) -> bool {
    r.waker == Some(Waker { task })
}

/// The test that every registration passes whose waker does not belong to
/// `task`.
pub open spec fn not_held_by(task: TaskId) -> spec_fn(Registration) -> bool {
    |r: Registration| !held_by(r, task)
}

/// The table without the registrations whose waker belongs to `task`.
pub open spec fn released(regs: Seq<Registration>, task: TaskId) -> Seq<Registration> {
    regs.filter(not_held_by(task))
}

/// The registrations that have a waker bound, in table order.
pub open spec fn armed_of(regs: Seq<Registration>) -> Seq<Registration> {
    regs.filter(|r: Registration| r.waker is Some)
}

/// In a well-formed table, a resource and a token that stand at different
/// places are not registered as each other's.
proof fn lemma_not_registered_as(
    regs: Seq<Registration>,
    resource: ResourceId,
    token: Token,
    i: int,
    j: int,
)
    requires
        table_wf(regs),
        0 <= i < regs.len(),
        0 <= j < regs.len(),
        i != j,
        regs[i].resource == resource,
        regs[j].token == token,
    ensures
        !registered_as(regs, resource, token),
{
    if registered_as(regs, resource, token) {
        let k = choose|k: int|
            0 <= k < regs.len() && (#[trigger] regs[k]).resource == resource && regs[k].token
                == token;
        if k < i {
            assert(regs[k].resource != regs[i].resource);
        } else if i < k {
            assert(regs[i].resource != regs[k].resource);
        } else if k < j {
            assert(regs[k].token != regs[j].token);
        } else {
            assert(regs[j].token != regs[k].token);
        }
    }
}

spec fn slots_wf(slots: Seq<Slot>) -> bool {
    forall|i: int, j: int|
        0 <= i < j < slots.len() ==> slots[i].token != slots[j].token && slots[i].resource
            != slots[j].resource
}

spec fn slots_below(slots: Seq<Slot>, limit: int) -> bool {
    forall|i: int| 0 <= i < slots.len() ==> (#[trigger] slots[i]).token.raw < limit
}

spec fn has_raw(slots: Seq<Slot>, raw: usize) -> bool {
    exists|i: int| 0 <= i < slots.len() && (#[trigger] slots[i]).token.raw == raw
}

spec fn keys_registered(slots: Seq<Slot>, wakers: Map<usize, Waker>) -> bool {
    forall|raw: usize| #[trigger] wakers.contains_key(raw) ==> has_raw(slots, raw)
}

/// What the joined table has of the slots.
proof fn lemma_joined(slots: Seq<Slot>, wakers: Map<usize, Waker>)
    requires
        slots_wf(slots),
    ensures
        table_wf(joined(slots, wakers)),
        joined(slots, wakers).len() == slots.len(),
        forall|token: Token|
            has_token(joined(slots, wakers), token) <==> exists|i: int|
                0 <= i < slots.len() && (#[trigger] slots[i]).token == token,
        forall|resource: ResourceId|
            has_resource(joined(slots, wakers), resource) <==> exists|i: int|
                0 <= i < slots.len() && (#[trigger] slots[i]).resource == resource,
{
    let regs = joined(slots, wakers);
    assert forall|token: Token| has_token(regs, token) <==> exists|i: int|
        0 <= i < slots.len() && (#[trigger] slots[i]).token == token by {
        if has_token(regs, token) {
            let i = choose|i: int| 0 <= i < regs.len() && (#[trigger] regs[i]).token == token;
            assert(slots[i].token == token);
        }
        if exists|i: int| 0 <= i < slots.len() && (#[trigger] slots[i]).token == token {
            let i = choose|i: int| 0 <= i < slots.len() && (#[trigger] slots[i]).token == token;
            assert(regs[i].token == token);
        }
    }
    assert forall|resource: ResourceId| has_resource(regs, resource) <==> exists|i: int|
        0 <= i < slots.len() && (#[trigger] slots[i]).resource == resource by {
        if has_resource(regs, resource) {
            let i = choose|i: int|
                0 <= i < regs.len() && (#[trigger] regs[i]).resource == resource;
            assert(slots[i].resource == resource);
        }
        if exists|i: int| 0 <= i < slots.len() && (#[trigger] slots[i]).resource == resource {
            let i = choose|i: int|
                0 <= i < slots.len() && (#[trigger] slots[i]).resource == resource;
            assert(regs[i].resource == resource);
        }
    }
}

/// In a well-formed table an event fires at most the registration of its
/// token.
proof fn lemma_woken_by_one(regs: Seq<Registration>, event: ReadinessEvent, i: int)
    requires
        table_wf(regs),
        0 <= i < regs.len(),
        regs[i].token == event.token,
    ensures
        woken_by(regs, event) == if fires(regs[i], event) {
            seq![regs[i].waker->0]
        } else {
            Seq::<Waker>::empty()
        },
    decreases regs.len(),
{
    let rest = regs.drop_last();
    assert forall|k: int| 0 <= k < rest.len() implies rest[k] == regs[k] by {}
    if i == regs.len() - 1 {
        lemma_woken_by_none(rest, event);
        if fires(regs[i], event) {
            assert(Seq::<Waker>::empty().push(regs[i].waker->0) =~= seq![regs[i].waker->0]);
        }
    } else {
        lemma_woken_by_one(rest, event, i);
        assert(regs.last() == regs[regs.len() - 1]);
        assert(regs[i].token != regs[regs.len() - 1].token);
    }
}

/// An event fires nothing in a table that does not hold its token.
proof fn lemma_woken_by_none(regs: Seq<Registration>, event: ReadinessEvent)
    requires
        forall|k: int| 0 <= k < regs.len() ==> regs[k].token != event.token,
    ensures
        woken_by(regs, event) == Seq::<Waker>::empty(),
    decreases regs.len(),
{
    if regs.len() > 0 {
        let rest = regs.drop_last();
        assert forall|k: int| 0 <= k < rest.len() implies rest[k].token != event.token by {
            assert(rest[k] == regs[k]);
        }
        lemma_woken_by_none(rest, event);
        assert(regs.last() == regs[regs.len() - 1]);
    }
}

fn find_resource(entries: &Vec<Slot>, resource: ResourceId) -> (found: Option<usize>)
    ensures
        match found {
            Some(i) => i < entries@.len() && entries@[i as int].resource == resource,
            None => forall|j: int| 0 <= j < entries@.len() ==> entries@[j].resource != resource,
        },
{
    let n: usize = entries.len();
    let mut i: usize = 0;
    while i < n
        invariant
            n == entries@.len(),
            i <= n,
            forall|j: int| 0 <= j < i ==> entries@[j].resource != resource,
        decreases n - i,
    {
        if entries[i].resource == resource {
            return Some(i);
        }
        i += 1;
    }
    None
}

fn find_token(entries: &Vec<Slot>, token: Token) -> (found: Option<usize>)
    ensures
        match found {
            Some(i) => i < entries@.len() && entries@[i as int].token == token,
            None => forall|j: int| 0 <= j < entries@.len() ==> entries@[j].token != token,
        },
{
    let n: usize = entries.len();
    let mut i: usize = 0;
    while i < n
        invariant
            n == entries@.len(),
            i <= n,
            forall|j: int| 0 <= j < i ==> entries@[j].token != token,
        decreases n - i,
    {
        if entries[i].token == token {
            return Some(i);
        }
        i += 1;
    }
    None
}

/// The waker that the map holds for a token's number.
fn waker_at(wakers: &HashMap<usize, Waker>, raw: usize) -> (waker: Option<Waker>)
    ensures
        waker == if wakers@.contains_key(raw) {
            Some(wakers@[raw])
        } else {
            None
        },
{
    match wakers.get(&raw) {
        Some(waker) => Some(*waker),
        None => None,
    }
}

impl Reactor {
    #[verifier::type_invariant]
    spec fn inv(self) -> bool {
        &&& slots_wf(self.entries@)
        &&& slots_below(self.entries@, self.next_token as int)
        &&& keys_registered(self.entries@, self.wakers@)
    }

    /// How many tokens have been handed out; the next fresh token has this
    /// number.
    pub closed spec fn issued(&self) -> nat {
        self.next_token as nat
    }

    /// A reactor with no registration, whose first token is 0.
    pub fn new() -> (reactor: Reactor)
        ensures
            reactor@ == Seq::<Registration>::empty(),
            reactor.issued() == 0,
    {
        Reactor { next_token: 0, entries: Vec::new(), wakers: HashMap::new() }
    }

    /// A reactor with no registration, whose first token is `first`.
    pub fn starting_at(first: usize) -> (reactor: Reactor)
        ensures
            reactor@ == Seq::<Registration>::empty(),
            reactor.issued() == first,
    {
        Reactor { next_token: first, entries: Vec::new(), wakers: HashMap::new() }
    }

    /// The number of registrations.
    pub fn len(&self) -> (n: usize)
        ensures
            n == self@.len(),
    {
        self.entries.len()
    }

    /// Whether nothing is registered.
    pub fn is_empty(&self) -> (b: bool)
        ensures
            b == (self@.len() == 0),
    {
        self.entries.len() == 0
    }

    /// Hands out a token that no earlier call has returned.
    ///
    /// Fails, and changes nothing, exactly when all token numbers are used up.
    pub fn create_token(&mut self) -> (r: Result<Token, ReactorError>)
        ensures
            final(self)@ == old(self)@,
            table_wf(final(self)@),
            match r {
                Ok(token) => {
                    &&& old(self).issued() < usize::MAX
                    &&& token.raw == old(self).issued()
                    &&& final(self).issued() == old(self).issued() + 1
                    &&& !has_token(old(self)@, token)
                },
                Err(e) => {
                    &&& e == ReactorError::TokensExhausted
                    &&& old(self).issued() == usize::MAX
                    &&& final(self).issued() == old(self).issued()
                },
            },
    {
        proof {
            use_type_invariant(&*self);
            lemma_joined(self.entries@, self.wakers@);
        }
        if self.next_token == usize::MAX {
            return Err(ReactorError::TokensExhausted);
        }
        let token = Token { raw: self.next_token };
        self.next_token = self.next_token + 1;
        Ok(token)
    }

    /// Registers interest in `resource`.
    ///
    /// A resource that is not registered yet gets a fresh token and no waker.
    /// For one that is registered the interest is replaced and its token is
    /// returned again; the bound waker stays. Fails, and changes nothing,
    /// exactly when a fresh token is needed and none is left.
    pub fn register(&mut self, resource: ResourceId, interest: Interest) -> (r: Result<
        Token,
        ReactorError,
    >)
        ensures
            table_wf(final(self)@),
            match r {
                Ok(token) => if has_resource(old(self)@, resource) {
                    &&& registered_as(old(self)@, resource, token)
                    &&& final(self)@ == rearmed(old(self)@, resource, interest)
                    &&& final(self).issued() == old(self).issued()
                } else {
                    &&& token.raw == old(self).issued()
                    &&& !has_token(old(self)@, token)
                    &&& final(self)@ == old(self)@.push(
                        Registration { token, resource, interest, waker: None },
                    )
                    &&& final(self).issued() == old(self).issued() + 1
                },
                Err(e) => {
                    &&& e == ReactorError::TokensExhausted
                    &&& !has_resource(old(self)@, resource)
                    &&& old(self).issued() == usize::MAX
                    &&& final(self)@ == old(self)@
                    &&& final(self).issued() == old(self).issued()
                },
            },
    {
        proof {
            use_type_invariant(&*self);
            lemma_joined(self.entries@, self.wakers@);
        }
        // The table is taken out while it is edited, so that the reactor is
        // consistent at every step.
        let mut wakers: HashMap<usize, Waker> = HashMap::new();
        core::mem::swap(&mut self.wakers, &mut wakers);
        let mut entries: Vec<Slot> = Vec::new();
        core::mem::swap(&mut self.entries, &mut entries);
        let result = match find_resource(&entries, resource) {
            Some(i) => {
                let slot = entries[i];
                entries.set(i, Slot { interest, ..slot });
                proof {
                    assert(old(self)@[i as int].resource == resource && old(self)@[i as int].token
                        == slot.token);
                    assert(joined(entries@, wakers@) =~= rearmed(old(self)@, resource, interest));
                    assert(has_raw(entries@, slot.token.raw) || true);
                    assert forall|raw: usize| #[trigger]
                        wakers@.contains_key(raw) implies has_raw(entries@, raw) by {
                        assert(has_raw(old(self).entries@, raw));
                        let k = choose|k: int|
                            0 <= k < old(self).entries@.len() && (#[trigger] old(
                                self,
                            ).entries@[k]).token.raw == raw;
                        assert(entries@[k].token.raw == raw);
                    }
                }
                Ok(slot.token)
            },
            None => {
                if self.next_token == usize::MAX {
                    Err(ReactorError::TokensExhausted)
                } else {
                    let token = Token { raw: self.next_token };
                    entries.push(Slot { token, resource, interest });
                    self.next_token = self.next_token + 1;
                    proof {
                        assert(!wakers@.contains_key(token.raw)) by {
                            if wakers@.contains_key(token.raw) {
                                assert(has_raw(old(self).entries@, token.raw));
                            }
                        }
                        assert(joined(entries@, wakers@) =~= old(self)@.push(
                            Registration { token, resource, interest, waker: None },
                        ));
                        assert forall|raw: usize| #[trigger]
                            wakers@.contains_key(raw) implies has_raw(entries@, raw) by {
                            assert(has_raw(old(self).entries@, raw));
                            let k = choose|k: int|
                                0 <= k < old(self).entries@.len() && (#[trigger] old(
                                    self,
                                ).entries@[k]).token.raw == raw;
                            assert(entries@[k].token.raw == raw);
                        }
                    }
                    Ok(token)
                }
            },
        };
        proof {
            lemma_joined(entries@, wakers@);
        }
        core::mem::swap(&mut self.entries, &mut entries);
        core::mem::swap(&mut self.wakers, &mut wakers);
        result
    }

    /// Registers interest in `resource` under `token`, a token that
    /// [`Reactor::create_token`] has handed out.
    ///
    /// Where neither is registered, the registration is new and has no waker.
    /// Where `resource` is registered under this very token, the interest is
    /// replaced and the bound waker stays. Fails with `UnknownToken`, and
    /// changes nothing, exactly when the token was never handed out; fails
    /// with `InUse`, and changes nothing, exactly when it was handed out and
    /// the token or the resource is registered otherwise.
    pub fn register_with(&mut self, token: Token, resource: ResourceId, interest: Interest) -> (r:
        Result<(), ReactorError>)
        ensures
            table_wf(final(self)@),
            final(self).issued() == old(self).issued(),
            match r {
                Ok(_) => {
                    &&& token.raw < old(self).issued()
                    &&& if registered_as(old(self)@, resource, token) {
                        final(self)@ == rearmed(old(self)@, resource, interest)
                    } else {
                        &&& !has_token(old(self)@, token)
                        &&& !has_resource(old(self)@, resource)
                        &&& final(self)@ == old(self)@.push(
                            Registration { token, resource, interest, waker: None },
                        )
                    }
                },
                Err(e) => {
                    &&& final(self)@ == old(self)@
                    &&& if token.raw >= old(self).issued() {
                        e == ReactorError::UnknownToken
                    } else {
                        &&& e == ReactorError::InUse
                        &&& !registered_as(old(self)@, resource, token)
                        &&& has_token(old(self)@, token) || has_resource(old(self)@, resource)
                    }
                },
            },
    {
        proof {
            use_type_invariant(&*self);
            lemma_joined(self.entries@, self.wakers@);
        }
        if token.raw >= self.next_token {
            return Err(ReactorError::UnknownToken);
        }
        let mut wakers: HashMap<usize, Waker> = HashMap::new();
        core::mem::swap(&mut self.wakers, &mut wakers);
        let mut entries: Vec<Slot> = Vec::new();
        core::mem::swap(&mut self.entries, &mut entries);
        let by_resource = find_resource(&entries, resource);
        let by_token = find_token(&entries, token);
        let result = match (by_resource, by_token) {
            (None, None) => {
                entries.push(Slot { token, resource, interest });
                proof {
                    assert(!registered_as(old(self)@, resource, token));
                    assert(!wakers@.contains_key(token.raw)) by {
                        if wakers@.contains_key(token.raw) {
                            assert(has_raw(old(self).entries@, token.raw));
                            let k = choose|k: int|
                                0 <= k < old(self).entries@.len() && (#[trigger] old(
                                    self,
                                ).entries@[k]).token.raw == token.raw;
                            assert(old(self).entries@[k].token == token);
                        }
                    }
                    assert(joined(entries@, wakers@) =~= old(self)@.push(
                        Registration { token, resource, interest, waker: None },
                    ));
                }
                Ok(())
            },
            (Some(i), Some(j)) => {
                if i == j {
                    let slot = entries[i];
                    entries.set(i, Slot { interest, ..slot });
                    proof {
                        assert(old(self)@[i as int].resource == resource && old(self)@[i as int].token
                            == token);
                        assert(joined(entries@, wakers@) =~= rearmed(
                            old(self)@,
                            resource,
                            interest,
                        ));
                    }
                    Ok(())
                } else {
                    proof {
                        assert(old(self)@[i as int].resource == resource);
                        assert(old(self)@[j as int].token == token);
                        lemma_not_registered_as(old(self)@, resource, token, i as int, j as int);
                    }
                    Err(ReactorError::InUse)
                }
            },
            (Some(i), None) => {
                proof {
                    assert(old(self)@[i as int].resource == resource);
                    if registered_as(old(self)@, resource, token) {
                        let k = choose|k: int|
                            0 <= k < old(self)@.len() && (#[trigger] old(self)@[k]).resource
                                == resource && old(self)@[k].token == token;
                        assert(entries@[k].token == token);
                    }
                }
                Err(ReactorError::InUse)
            },
            (None, Some(j)) => {
                proof {
                    assert(old(self)@[j as int].token == token);
                    if registered_as(old(self)@, resource, token) {
                        let k = choose|k: int|
                            0 <= k < old(self)@.len() && (#[trigger] old(self)@[k]).resource
                                == resource && old(self)@[k].token == token;
                        assert(entries@[k].resource == resource);
                    }
                }
                Err(ReactorError::InUse)
            },
        };
        proof {
            assert forall|raw: usize| #[trigger]
                wakers@.contains_key(raw) implies has_raw(entries@, raw) by {
                assert(has_raw(old(self).entries@, raw));
                let k = choose|k: int|
                    0 <= k < old(self).entries@.len() && (#[trigger] old(self).entries@[k]).token.raw
                        == raw;
                assert(entries@[k].token.raw == raw);
            }
            lemma_joined(entries@, wakers@);
        }
        core::mem::swap(&mut self.entries, &mut entries);
        core::mem::swap(&mut self.wakers, &mut wakers);
        result
    }

    /// Binds `waker` to `token`, in place of any waker bound before.
    ///
    /// Fails, and changes nothing, exactly when `token` is not registered.
    pub fn bind_waker(&mut self, token: Token, waker: Waker) -> (r: Result<(), ReactorError>)
        ensures
            table_wf(final(self)@),
            final(self).issued() == old(self).issued(),
            match r {
                Ok(_) => has_token(old(self)@, token) && final(self)@ == bound(
                    old(self)@,
                    token,
                    waker,
                ),
                Err(e) => e == ReactorError::UnknownToken && !has_token(old(self)@, token)
                    && final(self)@ == old(self)@,
            },
    {
        proof {
            use_type_invariant(&*self);
            lemma_joined(self.entries@, self.wakers@);
        }
        let mut wakers: HashMap<usize, Waker> = HashMap::new();
        core::mem::swap(&mut self.wakers, &mut wakers);
        let result = match find_token(&self.entries, token) {
            Some(i) => {
                let _ = wakers.insert(token.raw, waker);
                proof {
                    assert(joined(self.entries@, wakers@) =~= bound(old(self)@, token, waker));
                    assert forall|raw: usize| #[trigger]
                        wakers@.contains_key(raw) implies has_raw(self.entries@, raw) by {
                        if raw == token.raw {
                            assert(self.entries@[i as int].token.raw == raw);
                        }
                    }
                }
                Ok(())
            },
            None => Err(ReactorError::UnknownToken),
        };
        proof {
            lemma_joined(self.entries@, wakers@);
        }
        core::mem::swap(&mut self.wakers, &mut wakers);
        result
    }

    /// Ends the registration of `token`.
    ///
    /// Fails, and changes nothing, exactly when `token` is not registered.
    pub fn deregister(&mut self, token: Token) -> (r: Result<(), ReactorError>)
        ensures
            table_wf(final(self)@),
            final(self).issued() == old(self).issued(),
            !has_token(final(self)@, token),
            match r {
                Ok(_) => exists|i: int|
                    0 <= i < old(self)@.len() && old(self)@[i].token == token && final(self)@
                        == old(self)@.remove(i),
                Err(e) => e == ReactorError::UnknownToken && !has_token(old(self)@, token)
                    && final(self)@ == old(self)@,
            },
    {
        proof {
            use_type_invariant(&*self);
            lemma_joined(self.entries@, self.wakers@);
        }
        let mut wakers: HashMap<usize, Waker> = HashMap::new();
        core::mem::swap(&mut self.wakers, &mut wakers);
        let mut entries: Vec<Slot> = Vec::new();
        core::mem::swap(&mut self.entries, &mut entries);
        let result = match find_token(&entries, token) {
            Some(i) => {
                let _ = entries.remove(i);
                let _ = wakers.remove(&token.raw);
                proof {
                    let before = old(self).entries@;
                    let after = entries@;
                    assert forall|k: int| 0 <= k < after.len() implies after[k] == before[if k
                        < i {
                        k
                    } else {
                        k + 1
                    }] && after[k].token != token by {
                        let k2 = if k < i {
                            k
                        } else {
                            k + 1
                        };
                        if k2 < i {
                            assert(before[k2].token != before[i as int].token);
                        } else {
                            assert(before[i as int].token != before[k2].token);
                        }
                    }
                    assert(slots_wf(after)) by {
                        assert forall|a: int, b: int| 0 <= a < b < after.len() implies after[a].token
                            != after[b].token && after[a].resource != after[b].resource by {
                            let a2 = if a < i {
                                a
                            } else {
                                a + 1
                            };
                            let b2 = if b < i {
                                b
                            } else {
                                b + 1
                            };
                            assert(after[a] == before[a2]);
                            assert(after[b] == before[b2]);
                        }
                    }
                    assert(joined(after, wakers@) =~= old(self)@.remove(i as int));
                    assert forall|raw: usize| #[trigger]
                        wakers@.contains_key(raw) implies has_raw(after, raw) by {
                        assert(has_raw(before, raw));
                        let k = choose|k: int|
                            0 <= k < before.len() && (#[trigger] before[k]).token.raw == raw;
                        let k2 = if k < i {
                            k
                        } else {
                            k - 1
                        };
                        assert(after[k2] == before[k]);
                    }
                    assert(old(self)@[i as int].token == token);
                }
                Ok(())
            },
            None => Err(ReactorError::UnknownToken),
        };
        proof {
            lemma_joined(entries@, wakers@);
        }
        core::mem::swap(&mut self.entries, &mut entries);
        core::mem::swap(&mut self.wakers, &mut wakers);
        result
    }

    /// Registers interest in `resource` and binds `waker` to its token: what a
    /// task does that found the resource not ready.
    ///
    /// Fails, and changes nothing, exactly when the resource is not
    /// registered yet and no fresh token is left.
    pub fn subscribe(&mut self, resource: ResourceId, interest: Interest, waker: Waker) -> (r:
        Result<Token, ReactorError>)
        ensures
            table_wf(final(self)@),
            match r {
                Ok(token) => {
                    &&& has_resource(old(self)@, resource) || old(self).issued() < usize::MAX
                    &&& final(self)@ == subscribed(
                        old(self)@,
                        old(self).issued(),
                        resource,
                        interest,
                        waker,
                    )
                    &&& registered_as(final(self)@, resource, token)
                    &&& final(self).issued() == if has_resource(old(self)@, resource) {
                        old(self).issued()
                    } else {
                        old(self).issued() + 1
                    }
                },
                Err(e) => {
                    &&& e == ReactorError::TokensExhausted
                    &&& !has_resource(old(self)@, resource)
                    &&& old(self).issued() == usize::MAX
                    &&& final(self)@ == old(self)@
                    &&& final(self).issued() == old(self).issued()
                },
            },
    {
        match self.register(resource, interest) {
            Ok(token) => {
                let ghost mid = self@;
                let bound_ok = self.bind_waker(token, waker);
                proof {
                    let before = old(self)@;
                    if has_resource(before, resource) {
                        let i = choose|i: int|
                            0 <= i < before.len() && (#[trigger] before[i]).resource == resource
                                && before[i].token == token;
                        assert(mid[i].token == token);
                        assert forall|j: int| 0 <= j < mid.len() implies (mid[j].token == token
                            <==> before[j].resource == resource) by {
                            assert(mid[j].token == before[j].token);
                            assert(mid[j].resource == before[j].resource);
                            if j < i {
                                assert(mid[j].token != mid[i].token && mid[j].resource
                                    != mid[i].resource);
                            } else if i < j {
                                assert(mid[i].token != mid[j].token && mid[i].resource
                                    != mid[j].resource);
                            }
                        }
                        assert(self@ =~= subscribed(
                            before,
                            old(self).issued(),
                            resource,
                            interest,
                            waker,
                        ));
                        assert(self@[i].resource == resource && self@[i].token == token);
                    } else {
                        let last = before.len() as int;
                        assert(mid[last].token == token);
                        assert forall|j: int| 0 <= j < last implies mid[j].token != token by {
                            assert(mid[j] == before[j]);
                        }
                        assert(self@ =~= subscribed(
                            before,
                            old(self).issued(),
                            resource,
                            interest,
                            waker,
                        ));
                        assert(self@[last].resource == resource && self@[last].token == token);
                    }
                }
                Ok(token)
            },
            Err(e) => Err(e),
        }
    }

    /// The registration of `token`, if there is one.
    pub fn lookup(&self, token: Token) -> (found: Option<Registration>)
        ensures
            match found {
                Some(r) => r.token == token && self@.contains(r),
                None => !has_token(self@, token),
            },
    {
        proof {
            use_type_invariant(self);
            lemma_joined(self.entries@, self.wakers@);
        }
        match find_token(&self.entries, token) {
            Some(i) => {
                let slot = self.entries[i];
                let waker = waker_at(&self.wakers, slot.token.raw);
                let found = Registration {
                    token: slot.token,
                    resource: slot.resource,
                    interest: slot.interest,
                    waker,
                };
                assert(self@[i as int] == found);
                Some(found)
            },
            None => None,
        }
    }

    /// The waker that is bound under `token`, if the token is registered and
    /// has one.
    pub fn holder(&self, token: Token) -> (waker: Option<Waker>)
        ensures
            table_wf(self@),
            waker == holder_of(self@, token),
    {
        proof {
            use_type_invariant(self);
            lemma_joined(self.entries@, self.wakers@);
        }
        match find_token(&self.entries, token) {
            Some(i) => {
                proof {
                    assert(self@[i as int].token == token);
                    let k = choose|k: int|
                        0 <= k < self@.len() && (#[trigger] self@[k]).token == token;
                    if k < i {
                        assert(self@[k].token != self@[i as int].token);
                    } else if i < k {
                        assert(self@[i as int].token != self@[k].token);
                    }
                }
                waker_at(&self.wakers, self.entries[i].token.raw)
            },
            None => None,
        }
    }

    /// The registrations that have a waker bound, in table order: what the
    /// multiplexer has to watch during the next wait.
    pub fn armed(&self) -> (list: Vec<Registration>)
        ensures
            list@ == armed_of(self@),
    {
        let mut list: Vec<Registration> = Vec::new();
        let n: usize = self.entries.len();
        let mut i: usize = 0;
        proof {
            reveal(Seq::filter);
            assert(self@.take(0) =~= Seq::<Registration>::empty());
        }
        while i < n
            invariant
                n == self.entries@.len(),
                n == self@.len(),
                i <= n,
                list@ == armed_of(self@.take(i as int)),
            decreases n - i,
        {
            let slot = self.entries[i];
            let waker = waker_at(&self.wakers, slot.token.raw);
            proof {
                reveal(Seq::filter);
                assert(self@.take(i + 1).drop_last() =~= self@.take(i as int));
                assert(self@.take(i + 1).last() == self@[i as int]);
            }
            if waker.is_some() {
                list.push(
                    Registration {
                        token: slot.token,
                        resource: slot.resource,
                        interest: slot.interest,
                        waker,
                    },
                );
            }
            i += 1;
        }
        proof {
            assert(self@.take(n as int) =~= self@);
        }
        list
    }

    /// Resolves events to the wakers that they fire.
    ///
    /// The events are taken in order. Each fires the registration of its
    /// token if a waker is bound there and the event reports a direction that
    /// is asked for; the waker is taken out of the table and returned. Any
    /// other event is dropped.
    pub fn dispatch(&mut self, events: &Vec<ReadinessEvent>) -> (wakers: Vec<Waker>)
        ensures
            table_wf(final(self)@),
            final(self).issued() == old(self).issued(),
            final(self)@ == after_events(old(self)@, events@),
            wakers@ == woken_by_all(old(self)@, events@),
    {
        proof {
            use_type_invariant(&*self);
            lemma_joined(self.entries@, self.wakers@);
        }
        let mut map: HashMap<usize, Waker> = HashMap::new();
        core::mem::swap(&mut self.wakers, &mut map);
        let mut wakers: Vec<Waker> = Vec::new();
        let ghost start = old(self)@;
        let ghost slots = self.entries@;
        let m: usize = events.len();
        let mut k: usize = 0;
        proof {
            assert(events@.take(0) =~= Seq::<ReadinessEvent>::empty());
        }
        while k < m
            invariant
                m == events@.len(),
                k <= m,
                self.entries@ == slots,
                slots_wf(slots),
                keys_registered(slots, map@),
                joined(slots, map@) == after_events(start, events@.take(k as int)),
                wakers@ == woken_by_all(start, events@.take(k as int)),
            decreases m - k,
        {
            let event = events[k];
            let ghost before = joined(slots, map@);
            let ghost fired = wakers@;
            let ghost map_before = map@;
            proof {
                lemma_joined(slots, map@);
            }
            match find_token(&self.entries, event.token) {
                Some(i) => {
                    let slot = self.entries[i];
                    proof {
                        assert(before[i as int].token == event.token);
                        lemma_woken_by_one(before, event, i as int);
                    }
                    if slot.interest.matches(&event) {
                        match map.remove(&slot.token.raw) {
                            Some(waker) => {
                                wakers.push(waker);
                                proof {
                                    assert(fires(before[i as int], event));
                                    assert(wakers@ =~= fired + seq![waker]);
                                }
                            },
                            None => {
                                proof {
                                    assert(map@ =~= map_before);
                                }
                            },
                        }
                    }
                    proof {
                        assert forall|j: int| 0 <= j < slots.len() && j != i implies slots[j].token.raw
                            != slot.token.raw by {
                            if j < i {
                                assert(slots[j].token != slots[i as int].token);
                            } else {
                                assert(slots[i as int].token != slots[j].token);
                            }
                        }
                        assert(joined(slots, map@) =~= after_event(before, event));
                        assert(wakers@ =~= fired + woken_by(before, event));
                    }
                },
                None => {
                    proof {
                        lemma_woken_by_none(before, event);
                        assert(joined(slots, map@) =~= after_event(before, event));
                        assert(wakers@ =~= fired + woken_by(before, event));
                    }
                },
            }
            proof {
                assert(events@.take(k + 1).drop_last() =~= events@.take(k as int));
                assert(events@.take(k + 1).last() == event);
            }
            k += 1;
        }
        proof {
            assert(events@.take(m as int) =~= events@);
            lemma_joined(slots, map@);
        }
        core::mem::swap(&mut self.wakers, &mut map);
        wakers
    }

    /// Ends every registration whose waker belongs to `task`. Returns how
    /// many were ended.
    pub fn release(&mut self, task: TaskId) -> (count: usize)
        ensures
            table_wf(final(self)@),
            final(self).issued() == old(self).issued(),
            final(self)@ == released(old(self)@, task),
            count == old(self)@.len() - final(self)@.len(),
    {
        proof {
            use_type_invariant(&*self);
            lemma_joined(self.entries@, self.wakers@);
        }
        let mut map: HashMap<usize, Waker> = HashMap::new();
        core::mem::swap(&mut self.wakers, &mut map);
        let mut entries: Vec<Slot> = Vec::new();
        core::mem::swap(&mut self.entries, &mut entries);
        let ghost m0 = map@;
        let ghost start = old(self)@;
        // First the slots that stay are picked, then the wakers of the others
        // are taken out of the map.
        let mut kept: Vec<Slot> = Vec::new();
        let ghost mut origin: Seq<int> = Seq::empty();
        let n: usize = entries.len();
        let mut i: usize = 0;
        let mut count: usize = 0;
        proof {
            reveal(Seq::filter);
            assert(start.take(0) =~= Seq::<Registration>::empty());
            assert(joined(kept@, m0) =~= released(start.take(0), task));
        }
        while i < n
            invariant
                n == entries@.len(),
                i <= n,
                map@ == m0,
                start == joined(entries@, m0),
                joined(kept@, m0) == released(start.take(i as int), task),
                count + kept@.len() == i,
                origin.len() == kept@.len(),
                forall|a: int|
                    0 <= a < origin.len() ==> 0 <= #[trigger] origin[a] < i && kept@[a]
                        == entries@[origin[a]] && !held_by(start[origin[a]], task),
                forall|a: int, b: int| 0 <= a < b < origin.len() ==> origin[a] < origin[b],
                forall|b: int|
                    0 <= b < i && !held_by(#[trigger] start[b], task) ==> exists|a: int|
                        0 <= a < origin.len() && #[trigger] origin[a] == b,
            decreases n - i,
        {
            let slot = entries[i];
            let bound_waker = waker_at(&map, slot.token.raw);
            proof {
                reveal(Seq::filter);
                assert(start.take(i + 1).drop_last() =~= start.take(i as int));
                assert(start.take(i + 1).last() == start[i as int]);
                assert(start[i as int] == join_one(slot, m0));
            }
            let held = match bound_waker {
                Some(waker) => waker.task == task,
                None => false,
            };
            if held {
                count += 1;
            } else {
                let ghost prev = kept@;
                let ghost prev_origin = origin;
                kept.push(slot);
                proof {
                    origin = origin.push(i as int);
                    assert(joined(kept@, m0) =~= joined(prev, m0).push(join_one(slot, m0)));
                    assert forall|b: int|
                        0 <= b < i + 1 && !held_by(#[trigger] start[b], task) implies exists|a: int|
                        0 <= a < origin.len() && #[trigger] origin[a] == b by {
                        if b == i {
                            assert(origin[prev_origin.len() as int] == b);
                        } else {
                            let a = choose|a: int|
                                0 <= a < prev_origin.len() && #[trigger] prev_origin[a] == b;
                            assert(origin[a] == b);
                        }
                    }
                }
            }
            i += 1;
        }
        proof {
            assert(start.take(n as int) =~= start);
        }
        let mut j: usize = 0;
        while j < n
            invariant
                n == entries@.len(),
                j <= n,
                start == joined(entries@, m0),
                slots_wf(entries@),
                forall|raw: usize| #[trigger]
                    map@.contains_key(raw) ==> m0.contains_key(raw) && map@[raw] == m0[raw],
                forall|b: int|
                    0 <= b < n && (b >= j || !held_by(start[b], task)) && m0.contains_key(
                        (#[trigger] entries@[b]).token.raw,
                    ) ==> map@.contains_key(entries@[b].token.raw),
                forall|b: int|
                    0 <= b < j && held_by(start[b], task) ==> !map@.contains_key(
                        (#[trigger] entries@[b]).token.raw,
                    ),
            decreases n - j,
        {
            let slot = entries[j];
            let bound_waker = waker_at(&map, slot.token.raw);
            proof {
                assert(start[j as int] == join_one(slot, m0));
                assert(bound_waker == start[j as int].waker);
            }
            let held = match bound_waker {
                Some(waker) => waker.task == task,
                None => false,
            };
            if held {
                let _ = map.remove(&slot.token.raw);
                proof {
                    assert forall|b: int|
                        0 <= b < n && (b >= j + 1 || !held_by(start[b], task)) && m0.contains_key(
                            (#[trigger] entries@[b]).token.raw,
                        ) implies map@.contains_key(entries@[b].token.raw) by {
                        if b < j {
                            assert(entries@[b].token != entries@[j as int].token);
                        } else {
                            assert(entries@[j as int].token != entries@[b].token);
                        }
                    }
                }
            }
            j += 1;
        }
        proof {
            lemma_release_done(entries@, kept@, origin, m0, map@, task, self.next_token as int);
        }
        core::mem::swap(&mut self.entries, &mut kept);
        core::mem::swap(&mut self.wakers, &mut map);
        count
    }
}

/// What the two passes of a release leave: the slots that stay, joined with
/// the map that is left, are well formed and are the slots joined with the
/// map as it was.
proof fn lemma_release_done(
    entries: Seq<Slot>,
    kept: Seq<Slot>,
    origin: Seq<int>,
    m0: Map<usize, Waker>,
    map: Map<usize, Waker>,
    task: TaskId,
    limit: int,
)
    requires
        slots_wf(entries),
        slots_below(entries, limit),
        keys_registered(entries, m0),
        origin.len() == kept.len(),
        forall|a: int|
            0 <= a < origin.len() ==> 0 <= #[trigger] origin[a] < entries.len() && kept[a]
                == entries[origin[a]] && !held_by(joined(entries, m0)[origin[a]], task),
        forall|a: int, b: int| 0 <= a < b < origin.len() ==> origin[a] < origin[b],
        forall|b: int|
            0 <= b < entries.len() && !held_by(#[trigger] joined(entries, m0)[b], task)
                ==> exists|a: int| 0 <= a < origin.len() && #[trigger] origin[a] == b,
        forall|raw: usize| #[trigger]
            map.contains_key(raw) ==> m0.contains_key(raw) && map[raw] == m0[raw],
        forall|b: int|
            0 <= b < entries.len() && !held_by(joined(entries, m0)[b], task) && m0.contains_key(
                (#[trigger] entries[b]).token.raw,
            ) ==> map.contains_key(entries[b].token.raw),
        forall|b: int|
            0 <= b < entries.len() && held_by(joined(entries, m0)[b], task) ==> !map.contains_key(
                (#[trigger] entries[b]).token.raw,
            ),
    ensures
        slots_wf(kept),
        slots_below(kept, limit),
        keys_registered(kept, map),
        joined(kept, map) == joined(kept, m0),
        table_wf(joined(kept, map)),
{
    assert forall|a: int, b: int| 0 <= a < b < kept.len() implies kept[a].token != kept[b].token
        && kept[a].resource != kept[b].resource by {
        assert(origin[a] < origin[b]);
        assert(kept[a] == entries[origin[a]]);
        assert(kept[b] == entries[origin[b]]);
    }
    assert forall|a: int| 0 <= a < kept.len() implies (#[trigger] kept[a]).token.raw < limit by {
        assert(kept[a] == entries[origin[a]]);
    }
    assert forall|a: int| 0 <= a < kept.len() implies join_one(kept[a], map) == join_one(
        kept[a],
        m0,
    ) by {
        let b = origin[a];
        assert(kept[a] == entries[b]);
        assert(!held_by(joined(entries, m0)[b], task));
    }
    assert(joined(kept, map) =~= joined(kept, m0));
    assert forall|raw: usize| #[trigger] map.contains_key(raw) implies has_raw(kept, raw) by {
        assert(has_raw(entries, raw));
        let b = choose|b: int| 0 <= b < entries.len() && (#[trigger] entries[b]).token.raw == raw;
        if held_by(joined(entries, m0)[b], task) {
            assert(!map.contains_key(entries[b].token.raw));
        }
        let a = choose|a: int| 0 <= a < origin.len() && #[trigger] origin[a] == b;
        assert(kept[a].token.raw == raw);
    }
    lemma_joined(kept, map);
}

} // verus!
