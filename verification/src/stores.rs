//! The store: the state of the program, the function that turns it by
//! actions, and those told of each new state.
use std::marker::PhantomData;
use vstd::prelude::*;
use crate::actions::{Action, ActionView};
use crate::readings::{outputs_view, reduced, reducer, reducible, Output, OutputView};
use crate::structs::{library, ReadingView, Readings};

verus! {

/// The state of the program: the readings, and what the last action had
/// to show or do.
#[derive(Debug)]
pub struct State {
    pub readings: Readings,
    pub outputs: Vec<Output>,
}

impl State {
    /// No readings and nothing to show.
    pub fn new() -> (s: State)
        ensures
            library(s.readings) == Map::<u32, ReadingView>::empty(),
            s.outputs@.len() == 0,
    {
        let readings: Readings = std::collections::HashMap::new();
        assert(library(readings) =~= Map::<u32, ReadingView>::empty());
        State { readings, outputs: Vec::new() }
    }
}

/// Applies `action` to the readings of `state`.
pub fn root_reducer(state: &State, action: Action) -> (s: State)
    requires
        reducible(library(state.readings), action@),
    ensures
        reduced(library(state.readings), action@, library(s.readings), outputs_view(s.outputs@)),
{
    let (readings, outputs) = reducer(&state.readings, &action);
    State { readings, outputs }
}

/// A state, the function that turns it by actions, and the functions told
/// of each new state.
pub struct Store<T, U, R, L> {
    state: T,
    listeners: Vec<L>,
    reducer: R,
    actions: PhantomData<U>,
}

impl<T, U, R: Fn(&T, U) -> T, L: Fn(&T)> Store<T, U, R, L> {
    /// The current state.
    pub closed spec fn state(&self) -> T {
        self.state
    }

    /// The functions told of each new state, in the order they subscribed.
    pub closed spec fn listeners(&self) -> Seq<L> {
        self.listeners@
    }

    /// The function that turns the state.
    pub closed spec fn reducer(&self) -> R {
        self.reducer
    }

    /// A store holding `initial_state`, turned by `reducer`, with no one
    /// told of it.
    pub fn create_store(reducer: R, initial_state: T) -> (s: Self)
        ensures
            s.state() == initial_state,
            s.reducer() == reducer,
            s.listeners().len() == 0,
    {
        Store { state: initial_state, listeners: Vec::new(), reducer, actions: PhantomData }
    }

    /// Tells `listener` of every new state from now on.
    pub fn subscribe(&mut self, listener: L)
        ensures
            final(self).state() == old(self).state(),
            final(self).reducer() == old(self).reducer(),
            final(self).listeners() == old(self).listeners().push(listener),
    {
        self.listeners.push(listener);
    }

    /// The current state.
    pub fn get_state(&self) -> (s: &T)
        ensures
            *s == self.state(),
    {
        &self.state
    }

    /// Turns the state by `action`, then tells each listener, in order.
    pub fn dispatch(&mut self, action: U)
        requires
            call_requires(old(self).reducer(), (&old(self).state(), action)),
            forall|i: int, s: T| 0 <= i < old(self).listeners().len() ==> call_requires(old(self).listeners()[i], (&s,)),
        ensures
            call_ensures(old(self).reducer(), (&old(self).state(), action), final(self).state()),
            final(self).reducer() == old(self).reducer(),
            final(self).listeners() == old(self).listeners(),
            forall|j: int| 0 <= j < old(self).listeners().len() ==> call_ensures(old(self).listeners()[j], (&final(self).state(),), ()),
    {
        self.state = (self.reducer)(&self.state, action);
        let mut i: usize = 0;
        while i < self.listeners.len()
            invariant
                i <= self.listeners.len(),
                self.listeners@ == old(self).listeners(),
                self.reducer == old(self).reducer(),
                call_ensures(old(self).reducer(), (&old(self).state(), action), self.state),
                forall|j: int, s: T| 0 <= j < old(self).listeners().len() ==> call_requires(old(self).listeners()[j], (&s,)),
                forall|j: int| 0 <= j < i ==> call_ensures(old(self).listeners()[j], (&self.state,), ()),
            decreases self.listeners.len() - i,
        {
            assert(self.listeners@[i as int] == old(self).listeners()[i as int]);
            (self.listeners[i])(&self.state);
            i = i + 1;
        }
    }
}

} // verus!
