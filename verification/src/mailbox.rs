//! One cycle at a time: messages that arrive while a cycle is in flight wait
//! their turn, and are handled in the order in which they came.

use std::collections::VecDeque;
use vstd::prelude::*;
use crate::keys::Keys;

verus! {

/// A message on its way to the application, with the key path of the node
/// whose listener sent it (the empty path where no listener did).
pub struct Delivery<M> {
    pub message: M,
    pub keys: Keys,
}

/// What stands in front of the cycle: it lets one delivery through at a time
/// and keeps the others in line.
pub struct Mailbox<M> {
    waiting: VecDeque<Delivery<M>>,
    in_flight: bool,
    delivered: Ghost<Seq<Delivery<M>>>,
    started: Ghost<Seq<Delivery<M>>>,
}

impl<M> Mailbox<M> {
    /// Whether a cycle is in flight.
    pub closed spec fn busy(&self) -> bool {
        self.in_flight
    }

    /// The deliveries that wait for their cycle, the oldest first.
    pub closed spec fn pending(&self) -> Seq<Delivery<M>> {
        self.waiting@
    }

    /// Every delivery that ever came, in the order in which they came.
    pub closed spec fn delivered(&self) -> Seq<Delivery<M>> {
        self.delivered@
    }

    /// Every delivery that was ever let through to a cycle, in the order in
    /// which they were let through.
    pub closed spec fn started(&self) -> Seq<Delivery<M>> {
        self.started@
    }

    /// What holds of a mailbox at all times: the deliveries that were let
    /// through, followed by those that wait, are the deliveries that came,
    /// in their order; and nothing waits while no cycle is in flight.
    pub closed spec fn wf(&self) -> bool {
        &&& self.started@ + self.waiting@ == self.delivered@
        &&& !self.in_flight ==> self.waiting@.len() == 0
    }

    /// A mailbox to which nothing has come yet.
    pub fn new() -> (mailbox: Mailbox<M>)
        ensures
            mailbox.wf(),
            !mailbox.busy(),
            mailbox.pending() == Seq::<Delivery<M>>::empty(),
            mailbox.delivered() == Seq::<Delivery<M>>::empty(),
            mailbox.started() == Seq::<Delivery<M>>::empty(),
    {
        let mailbox = Mailbox {
            waiting: VecDeque::new(),
            in_flight: false,
            delivered: Ghost(Seq::empty()),
            started: Ghost(Seq::empty()),
        };
        assert(mailbox.started@ + mailbox.waiting@ =~= mailbox.delivered@);
        mailbox
    }

    /// A mailbox to which nothing has come yet, in front of a cycle that is
    /// in flight already.
    pub fn occupied() -> (mailbox: Mailbox<M>)
        ensures
            mailbox.wf(),
            mailbox.busy(),
            mailbox.pending() == Seq::<Delivery<M>>::empty(),
            mailbox.delivered() == Seq::<Delivery<M>>::empty(),
            mailbox.started() == Seq::<Delivery<M>>::empty(),
    {
        let mailbox = Mailbox {
            waiting: VecDeque::new(),
            in_flight: true,
            delivered: Ghost(Seq::empty()),
            started: Ghost(Seq::empty()),
        };
        assert(mailbox.started@ + mailbox.waiting@ =~= mailbox.delivered@);
        mailbox
    }

    /// Whether a cycle is in flight.
    pub fn is_busy(&self) -> (b: bool)
        ensures
            b == self.busy(),
    {
        self.in_flight
    }

    /// The number of deliveries that wait.
    pub fn waiting(&self) -> (n: usize)
        ensures
            n == self.pending().len(),
    {
        self.waiting.len()
    }

    /// A message arrives. Where no cycle is in flight, it is let through:
    /// the caller gets it back and runs its cycle. Where one is, the message
    /// gets in line behind those that wait, and the caller gets nothing.
    pub fn deliver(&mut self, message: M, keys: Keys) -> (next: Option<Delivery<M>>)
        requires
            old(self).wf(),
        ensures
            final(self).wf(),
            final(self).busy(),
            final(self).delivered() == old(self).delivered().push(Delivery { message, keys }),
            !old(self).busy() ==> next == Some(Delivery { message, keys }) && final(self).pending()
                == old(self).pending() && final(self).started() == old(self).started().push(
                Delivery { message, keys },
            ),
            old(self).busy() ==> next is None && final(self).pending() == old(self).pending().push(
                Delivery { message, keys },
            ) && final(self).started() == old(self).started(),
    {
        let delivery = Delivery { message, keys };
        proof {
            self.delivered@ = self.delivered@.push(delivery);
        }
        if self.in_flight {
            self.waiting.push_back(delivery);
            assert(self.started@ + self.waiting@ =~= self.delivered@);
            None
        } else {
            self.in_flight = true;
            proof {
                self.started@ = self.started@.push(delivery);
            }
            assert(self.started@ + self.waiting@ =~= self.delivered@);
            Some(delivery)
        }
    }

    /// The cycle in flight has ended, its mutations are made. Where
    /// deliveries wait, the oldest is let through: the caller gets it and
    /// runs its cycle. Where none waits, no cycle is in flight any more.
    pub fn finish(&mut self) -> (next: Option<Delivery<M>>)
        requires
            old(self).wf(),
        ensures
            final(self).wf(),
            final(self).delivered() == old(self).delivered(),
            old(self).pending().len() > 0 ==> next == Some(old(self).pending()[0])
                && final(self).busy() && final(self).pending() == old(self).pending().skip(1)
                && final(self).started() == old(self).started().push(old(self).pending()[0]),
            old(self).pending().len() == 0 ==> next is None && !final(self).busy()
                && final(self).pending() == old(self).pending() && final(self).started()
                == old(self).started(),
    {
        match self.waiting.pop_front() {
            Some(delivery) => {
                proof {
                    self.started@ = self.started@.push(delivery);
                }
                assert(self.started@ + self.waiting@ =~= self.delivered@);
                assert(self.waiting@ =~= old(self).waiting@.skip(1));
                Some(delivery)
            },
            None => {
                self.in_flight = false;
                None
            },
        }
    }

    /// Messages are handled in the order in which they come: at all times,
    /// the deliveries that were let through to a cycle are the first of
    /// those that came, in the same order, and those that wait are the
    /// rest, in the same order.
    pub proof fn law_in_order(&self)
        requires
            self.wf(),
        ensures
            self.started() + self.pending() == self.delivered(),
            self.started().len() <= self.delivered().len(),
            self.started() == self.delivered().take(self.started().len() as int),
            self.pending() == self.delivered().skip(self.started().len() as int),
            !self.busy() ==> self.started() == self.delivered(),
    {
        assert(self.started() =~= self.delivered().take(self.started().len() as int));
        assert(self.pending() =~= self.delivered().skip(self.started().len() as int));
        if !self.busy() {
            assert(self.started() =~= self.delivered());
        }
    }
}

} // verus!
