//! A producer that counts values for a channel and a consumer that drains
//! one, neither of them blocking.

use vstd::prelude::*;
use crossbeam_channel::{Receiver, Sender};

verus! {

#[verifier::external_type_specification]
#[verifier::external_body]
#[verifier::reject_recursive_types(T)]
pub struct ExSender<T>(Sender<T>);

#[verifier::external_type_specification]
#[verifier::external_body]
#[verifier::reject_recursive_types(T)]
pub struct ExReceiver<T>(Receiver<T>);

/// `crossbeam_channel::Receiver::try_recv`: takes a value from the channel
/// without blocking, if one is there. What comes back depends on other
/// threads, so nothing is stated of it.
#[verifier::external_body]
fn try_recv_value(rx: &Receiver<i32>) -> (value: Option<i32>) {
    rx.try_recv().ok()
}

/// Offers the numbers 0, 1, 2, ... to a channel, one per step, dropping those
/// the channel does not take. Each step names the number to offer; the caller
/// hands it to `tx` without blocking.
pub struct Producer {
    pub tx: Sender<i32>,
    pub current: i32,
}

impl Producer {
    /// A producer that offers to `tx`, starting at 0.
    pub fn new(tx: Sender<i32>) -> (p: Producer)
        ensures
            p.tx == tx,
            p.current == 0,
    {
        Producer { tx, current: 0 }
    }

    /// One step: the number to offer to the channel is the current one; the
    /// producer then moves to the next number and returns it. The count may
    /// not pass `i32::MAX`.
    pub fn next(&mut self) -> (r: (i32, Option<i32>))
        requires
            old(self).current < i32::MAX,
        ensures
            r.0 == old(self).current,
            final(self).current == old(self).current + 1,
            r.1 == Some(final(self).current),
            final(self).tx == old(self).tx,
    {
        let offered = self.current;
        self.current = self.current + 1;
        (offered, Some(self.current))
    }
}

/// Takes whatever a channel holds, one value per step.
pub struct Consumer {
    pub rx: Receiver<i32>,
}

impl Consumer {
    /// A consumer of `rx`.
    pub fn new(rx: Receiver<i32>) -> (c: Consumer)
        ensures
            c.rx == rx,
    {
        Consumer { rx }
    }

    /// The next value waiting in the channel, or `None` if there is none now;
    /// which value that is depends on the senders, and is not stated.
    pub fn next(&mut self) -> (r: Option<i32>)
        ensures
            final(self).rx == old(self).rx,
    {
        try_recv_value(&self.rx)
    }
}

} // verus!
