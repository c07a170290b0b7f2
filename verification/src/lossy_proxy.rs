//! Decisions of the lossy UDP proxy used to exercise FEC recovery.
//!
//! The proxy sits between a sender and a target. Traffic from the sender is
//! forwarded to the target unless the loss draw drops it; the sender's
//! address is remembered so that return traffic can find its way back.
//! Return traffic goes back without loss, or, in bidirectional mode, runs
//! through the same loss draw. Addresses are opaque to these decisions: the
//! caller says whether a datagram came from the target.
use vstd::prelude::*;

verus! {

/// What the proxy does with one datagram.
#[derive(Debug, PartialEq, Eq)]
pub enum ProxyAction<A> {
    /// Send it to this address.
    Forward(A),
    /// Drop it: the loss draw hit.
    Drop,
    /// Return traffic before any sender is known: there is nowhere to send it.
    Discard,
}

/// Proxy state: its own and the target's address, the mode, the last
/// sender seen, and counts of datagrams seen and dropped.
pub struct LossyProxy<A> {
    listen: A,
    target: A,
    bidirectional: bool,
    sender: Option<A>,
    total: u64,
    dropped: u64,
}

impl<A: Copy> LossyProxy<A> {
    /// The proxy's own address.
    pub closed spec fn listen_addr(&self) -> A {
        self.listen
    }

    /// The address datagrams are forwarded to.
    pub closed spec fn target_addr(&self) -> A {
        self.target
    }

    /// Whether return traffic runs through the loss draw too.
    pub closed spec fn is_bidirectional(&self) -> bool {
        self.bidirectional
    }

    /// The last sender seen.
    pub closed spec fn sender(&self) -> Option<A> {
        self.sender
    }

    /// Datagrams seen.
    pub closed spec fn seen(&self) -> u64 {
        self.total
    }

    /// Datagrams dropped.
    pub closed spec fn lost(&self) -> u64 {
        self.dropped
    }

    /// No more datagrams dropped than seen.
    pub closed spec fn wf(&self) -> bool {
        self.dropped <= self.total
    }

    /// A proxy listening on `listen` that forwards to `target`; no sender
    /// known, nothing seen.
    pub fn new(listen: A, target: A, bidirectional: bool) -> (p: Self)
        ensures
            p.wf(),
            p.listen_addr() == listen,
            p.target_addr() == target,
            p.is_bidirectional() == bidirectional,
            p.sender() is None,
            p.seen() == 0,
            p.lost() == 0,
    {
        LossyProxy { listen, target, bidirectional, sender: None, total: 0, dropped: 0 }
    }

    /// Decide what to do with a datagram from `from`; `from_target` tells
    /// whether it came from the target, `lose` is the outcome of the loss
    /// draw for it.
    ///
    /// Return traffic in one-way mode goes back to the last sender without
    /// loss (or is discarded when none is known yet). Any other datagram
    /// from a sender makes it the last sender. Then a hit of the loss draw
    /// drops the datagram; otherwise it goes to the target, or, for return
    /// traffic in bidirectional mode, to the last sender (to the proxy's own
    /// address when none is known).
    pub fn on_datagram(&mut self, from: A, from_target: bool, lose: bool) -> (action: ProxyAction<A>)
        requires
            old(self).wf(),
            old(self).seen() < u64::MAX,
        ensures
            final(self).wf(),
            final(self).listen_addr() == old(self).listen_addr(),
            final(self).target_addr() == old(self).target_addr(),
            final(self).is_bidirectional() == old(self).is_bidirectional(),
            final(self).seen() == old(self).seen() + 1,
            if from_target && !old(self).is_bidirectional() {
                &&& action == match old(self).sender() {
                    Some(a) => ProxyAction::Forward(a),
                    None => ProxyAction::<A>::Discard,
                }
                &&& final(self).sender() == old(self).sender()
                &&& final(self).lost() == old(self).lost()
            } else {
                &&& final(self).sender() == if from_target {
                    old(self).sender()
                } else {
                    Some(from)
                }
                &&& if lose {
                    action == ProxyAction::<A>::Drop && final(self).lost() == old(self).lost() + 1
                } else {
                    &&& final(self).lost() == old(self).lost()
                    &&& action == ProxyAction::Forward(
                        if from_target {
                            match old(self).sender() {
                                Some(a) => a,
                                None => old(self).listen_addr(),
                            }
                        } else {
                            old(self).target_addr()
                        },
                    )
                }
            },
    {
        self.total = self.total + 1;
        if from_target && !self.bidirectional {
            return match self.sender {
                Some(a) => ProxyAction::Forward(a),
                None => ProxyAction::Discard,
            };
        }
        if !from_target {
            self.sender = Some(from);
        }
        if lose {
            self.dropped = self.dropped + 1;
            return ProxyAction::Drop;
        }
        let dest = if from_target {
            match self.sender {
                Some(a) => a,
                None => self.listen,
            }
        } else {
            self.target
        };
        ProxyAction::Forward(dest)
    }

    /// Datagrams seen so far.
    pub fn total(&self) -> (n: u64)
        ensures
            n == self.seen(),
    {
        self.total
    }

    /// Datagrams dropped so far.
    pub fn dropped(&self) -> (n: u64)
        ensures
            n == self.lost(),
    {
        self.dropped
    }
}

} // verus!
