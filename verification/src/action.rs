//! Actions that complete at once, in three styles: immediate, by callback,
//! and by polling a set.

use vstd::prelude::*;
use vstd::string::StringExecFns;
use crate::outcome::PollResult;
use crate::task::Context;
use crate::task::Task;

verus! {

/// A unit of work with an identity and an input.
pub struct Action {
    pub id: usize,
    pub input: String,
}

/// A set of pending actions.
pub struct ActionSet {
    actions: Vec<Action>,
}

impl View for ActionSet {
    type V = Seq<Action>;

    closed spec fn view(&self) -> Seq<Action> {
        self.actions@
    }
}

impl Action {
    /// The text that performing the action yields: `Tuned `, then the input.
    pub open spec fn result(&self) -> Seq<char> {
        "Tuned "@ + self.input@
    }

    /// Performs the action and returns its result.
    pub fn perform_immediate(&self) -> (res: String)
        ensures
            res@ == self.result(),
    {
        let mut res = String::from_str("Tuned ");
        res.append(self.input.as_str());
        res
    }

    /// Performs the action and hands its result to `callback`, once.
    pub fn perform_callback<F>(&self, callback: F) where F: FnOnce(String)
        requires
            forall|res: String| res@ == self.result() ==> call_requires(callback, (res,)),
        ensures
            exists|res: String| res@ == self.result() && call_ensures(callback, (res,), ()),
    {
        let res = self.perform_immediate();
        callback(res);
    }
}

impl Task for Action {
    type Output = String;

    type Error = ();

    open spec fn polled(
        &self,
        after: &Self,
        before: Context,
        then: Context,
        answer: PollResult<String, ()>,
    ) -> bool {
        &&& *after == *self
        &&& then == before
        &&& answer matches PollResult::Ready(res) && res@ == self.result()
    }

    /// An action never suspends: its first poll answers `Ready` with its
    /// result and leaves the context alone.
    fn poll(&mut self, cx: &mut Context) -> (r: PollResult<String, ()>)
        ensures
            *final(self) == *old(self),
            *final(cx) == *old(cx),
            r matches PollResult::Ready(res) && res@ == old(self).result(),
    {
        PollResult::Ready(self.perform_immediate())
    }
}

impl ActionSet {
    /// The empty set.
    pub fn new() -> (set: ActionSet)
        ensures
            set@ == Seq::<Action>::empty(),
    {
        ActionSet { actions: Vec::new() }
    }

    /// Adds an action to the set.
    pub fn add(&mut self, action: Action)
        ensures
            final(self)@ == old(self)@.push(action),
    {
        self.actions.push(action);
    }

    /// The number of pending actions.
    pub fn len(&self) -> (n: usize)
        ensures
            n == self@.len(),
    {
        self.actions.len()
    }

    /// Completes pending work and reports what completed.
    ///
    /// Takes the action that was added last, performs it, and returns its
    /// identity and result as the one completed action. Returns `None`, and
    /// changes nothing, exactly when the set is empty.
    pub fn poll(&mut self) -> (done: Option<Vec<(usize, String)>>)
        ensures
            match done {
                Some(list) => {
                    &&& old(self)@.len() > 0
                    &&& final(self)@ == old(self)@.drop_last()
                    &&& list@.len() == 1
                    &&& list@[0].0 == old(self)@.last().id
                    &&& list@[0].1@ == old(self)@.last().result()
                },
                None => old(self)@.len() == 0 && final(self)@ == old(self)@,
            },
    {
        match self.actions.pop() {
            Some(action) => {
                let res = action.perform_immediate();
                let mut list: Vec<(usize, String)> = Vec::new();
                list.push((action.id, res));
                Some(list)
            },
            None => None,
        }
    }
}

} // verus!
