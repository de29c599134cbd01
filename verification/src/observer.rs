//! The dispatch of ticks to observers.
//!
//! Observers register and get a number, counted from zero in the order of
//! registration. Producers notify ticks, which wait in the order they came.
//! The one consumer takes the oldest tick and hands it to every observer,
//! in the order of registration, before it takes the next.
use vstd::prelude::*;
use std::collections::VecDeque;

verus! {

/// One tick of the feed: symbol, price and volume.
pub type Tick = (String, String, String);

/// A tick as the contracts see it.
pub type TickView = (Seq<char>, Seq<char>, Seq<char>);

/// The observers registered and the ticks that wait for them.
pub struct Observable {
    observers: usize,
    waiting: VecDeque<Tick>,
}

/// What the consumer has to do next: hand `tick` to each of `observers`, in
/// that order.
pub struct Dispatch {
    pub tick: Tick,
    pub observers: Vec<usize>,
}

impl Observable {
    /// The number of observers registered.
    pub closed spec fn registered(&self) -> nat {
        self.observers as nat
    }

    /// The ticks that wait, the oldest first.
    pub closed spec fn pending(&self) -> Seq<TickView> {
        self.waiting.deep_view()
    }

    /// No observer and no tick.
    pub fn new() -> (r: Self)
        ensures
            r.registered() == 0,
            r.pending().len() == 0,
    {
        Observable { observers: 0, waiting: VecDeque::new() }
    }

    /// Registers one more observer and returns its number, or nothing once
    /// the numbers are used up.
    pub fn add_observer(&mut self) -> (id: Option<usize>)
        ensures
            final(self).pending() == old(self).pending(),
            old(self).registered() < usize::MAX ==> id == Some(old(self).registered() as usize)
                && final(self).registered() == old(self).registered() + 1,
            old(self).registered() >= usize::MAX ==> id is None && final(self).registered() == old(
                self,
            ).registered(),
    {
        if self.observers < usize::MAX {
            let id = self.observers;
            self.observers = self.observers + 1;
            Some(id)
        } else {
            None
        }
    }

    /// Queues a tick behind those that wait.
    pub fn notify_observers(&mut self, symbol: String, price: String, volume: String)
        ensures
            final(self).registered() == old(self).registered(),
            final(self).pending() == old(self).pending().push((symbol@, price@, volume@)),
    {
        let ghost was = self.waiting.deep_view();
        self.waiting.push_back((symbol, price, volume));
        assert(self.waiting.deep_view() =~= was.push((symbol@, price@, volume@)));
    }

    /// Takes the oldest tick that waits and names the observers it goes to:
    /// all that are registered, in the order of registration. Nothing where
    /// no tick waits.
    pub fn next_dispatch(&mut self) -> (r: Option<Dispatch>)
        ensures
            final(self).registered() == old(self).registered(),
            old(self).pending().len() == 0 ==> r is None && final(self).pending() == old(self).pending(),
            old(self).pending().len() > 0 ==> {
                &&& r is Some
                &&& r->Some_0.tick.deep_view() == old(self).pending()[0]
                &&& r->Some_0.observers@ == Seq::new(old(self).registered(), |i: int| i as usize)
                &&& final(self).pending() == old(self).pending().drop_first()
            },
    {
        let ghost was = self.waiting.deep_view();
        match self.waiting.pop_front() {
            None => {
                assert(self.waiting.deep_view() =~= was);
                None
            },
            Some(tick) => {
                assert(self.waiting.deep_view() =~= was.drop_first());
                let mut observers: Vec<usize> = Vec::new();
                let mut i: usize = 0;
                while i < self.observers
                    invariant
                        i <= self.observers,
                        observers@ == Seq::new(i as nat, |k: int| k as usize),
                    decreases self.observers - i,
                {
                    observers.push(i);
                    assert(observers@ =~= Seq::new((i + 1) as nat, |k: int| k as usize));
                    i += 1;
                }
                Some(Dispatch { tick, observers })
            },
        }
    }
}

} // verus!
