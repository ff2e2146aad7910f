//! Traversal: visiting the items of a sequence in their declared order,
//! threading an accumulator through the visits, and stopping at the first
//! visit that fails.

use vstd::prelude::*;
use crate::dom::{listener_models, DomNode, KeyValue, Listener};

verus! {

/// What a traversal does at each item.
pub trait Processor<Item> {
    /// What is threaded through the visits.
    type Acc;

    /// What a visit fails with.
    type Error;

    /// Whether a visit of `item` that succeeds can take the accumulator from
    /// `before` to `after`. Unless a processor says more, any outcome can be.
    open spec fn step(before: Self::Acc, item: Item, after: Self::Acc) -> bool {
        true
    }

    /// Whether a visit of `item` with the accumulator `before` can fail with
    /// `error` and leave the accumulator as `after`. Unless a processor says
    /// more, any failure can be.
    open spec fn refuses(
        before: Self::Acc,
        item: Item,
        after: Self::Acc,
        error: Self::Error,
    ) -> bool {
        true
    }

    /// Visits one item.
    fn process(acc: &mut Self::Acc, item: &Item) -> (result: Result<(), Self::Error>)
        ensures
            match result {
                Ok(_) => Self::step(*old(acc), *item, *final(acc)),
                Err(e) => Self::refuses(*old(acc), *item, *final(acc), e),
            },
    ;
}

/// Whether successful visits of `items`, in order, can take the accumulator
/// from `before` to `after`.
pub open spec fn threaded<Item, P: Processor<Item>>(
    before: P::Acc,
    items: Seq<Item>,
    after: P::Acc,
) -> bool
    decreases items.len(),
{
    if items.len() == 0 {
        after == before
    } else {
        exists|mid: P::Acc|
            threaded::<Item, P>(before, items.drop_last(), mid) && P::step(
                mid,
                items.last(),
                after,
            )
    }
}

/// Whether a traversal of `items` that starts with the accumulator `before`
/// can stop with `error` and the accumulator `after`: the items before some
/// item were visited with success, in order, and the visit of that item
/// failed with `error` and left the accumulator as `after`. No later item was
/// visited.
pub open spec fn stopped<Item, P: Processor<Item>>(
    before: P::Acc,
    items: Seq<Item>,
    after: P::Acc,
    error: P::Error,
) -> bool {
    exists|n: int, mid: P::Acc|
        0 <= n < items.len() && #[trigger] threaded::<Item, P>(before, items.take(n), mid)
            && P::refuses(mid, items[n], after, error)
}

/// Visits every item of `items`, first to last, threading `acc` through the
/// visits. The first visit that fails ends the traversal: its error is
/// returned and no later item is visited.
pub fn process_all<Item, P: Processor<Item>>(items: &Vec<Item>, acc: &mut P::Acc) -> (result:
    Result<(), P::Error>)
    ensures
        match result {
            Ok(_) => threaded::<Item, P>(*old(acc), items@, *final(acc)),
            Err(e) => stopped::<Item, P>(*old(acc), items@, *final(acc), e),
        },
{
    let mut i: usize = 0;
    proof {
        assert(items@.take(0) =~= Seq::<Item>::empty());
    }
    while i < items.len()
        invariant
            i <= items@.len(),
            threaded::<Item, P>(*old(acc), items@.take(i as int), *acc),
        decreases items@.len() - i,
    {
        let ghost mid = *acc;
        match P::process(acc, &items[i]) {
            Ok(_) => {
                proof {
                    assert(items@.take(i + 1).drop_last() =~= items@.take(i as int));
                    assert(items@.take(i + 1).last() == items@[i as int]);
                    assert(threaded::<Item, P>(*old(acc), items@.take(i + 1).drop_last(), mid));
                }
            },
            Err(e) => {
                return Err(e);
            },
        }
        i += 1;
    }
    proof {
        assert(items@.take(i as int) =~= items@);
    }
    Ok(())
}

impl DomNode {
    /// Visits the attributes of the node, in declared order.
    pub fn process_attributes<P: Processor<KeyValue>>(&self, acc: &mut P::Acc) -> (result: Result<
        (),
        P::Error,
    >)
        ensures
            match result {
                Ok(_) => threaded::<KeyValue, P>(*old(acc), self.attributes@, *final(acc)),
                Err(e) => stopped::<KeyValue, P>(*old(acc), self.attributes@, *final(acc), e),
            },
    {
        process_all::<KeyValue, P>(&self.attributes, acc)
    }

    /// Visits the listeners of the node, in declared order.
    pub fn process_listeners<P: Processor<Listener>>(&self, acc: &mut P::Acc) -> (result: Result<
        (),
        P::Error,
    >)
        ensures
            match result {
                Ok(_) => threaded::<Listener, P>(*old(acc), self.listeners@, *final(acc)),
                Err(e) => stopped::<Listener, P>(*old(acc), self.listeners@, *final(acc), e),
            },
    {
        process_all::<Listener, P>(&self.listeners, acc)
    }

    /// Visits the children of the node, in declared order. The visit of a
    /// child decides whether it goes on to the children of the child.
    pub fn process_children<P: Processor<DomNode>>(&self, acc: &mut P::Acc) -> (result: Result<
        (),
        P::Error,
    >)
        ensures
            match result {
                Ok(_) => threaded::<DomNode, P>(*old(acc), self.children@, *final(acc)),
                Err(e) => stopped::<DomNode, P>(*old(acc), self.children@, *final(acc), e),
            },
    {
        process_all::<DomNode, P>(&self.children, acc)
    }
}

/// The traversal that gathers the listeners it visits, in order.
pub struct ListenersToVec;

impl Processor<Listener> for ListenersToVec {
    type Acc = Vec<Listener>;

    type Error = ();

    /// A visit adds the listener at the end.
    open spec fn step(before: Vec<Listener>, item: Listener, after: Vec<Listener>) -> bool {
        listener_models(after@) == listener_models(before@).push(item@)
    }

    /// No visit fails.
    open spec fn refuses(
        before: Vec<Listener>,
        item: Listener,
        after: Vec<Listener>,
        error: (),
    ) -> bool {
        false
    }

    fn process(acc: &mut Vec<Listener>, item: &Listener) -> (result: Result<(), ()>) {
        acc.push(item.clone());
        assert(listener_models(acc@) =~= listener_models(old(acc)@).push(item@));
        Ok(())
    }
}

/// Gathering listeners adds them to what was gathered before, in order.
pub proof fn lemma_gathered(before: Vec<Listener>, items: Seq<Listener>, after: Vec<Listener>)
    requires
        threaded::<Listener, ListenersToVec>(before, items, after),
    ensures
        listener_models(after@) == listener_models(before@) + listener_models(items),
    decreases items.len(),
{
    if items.len() == 0 {
        assert(listener_models(after@) =~= listener_models(before@) + listener_models(items));
    } else {
        let mid = choose|mid: Vec<Listener>|
            threaded::<Listener, ListenersToVec>(before, items.drop_last(), mid)
                && ListenersToVec::step(mid, items.last(), after);
        lemma_gathered(before, items.drop_last(), mid);
        assert(listener_models(after@) =~= listener_models(before@) + listener_models(items));
    }
}

/// The listeners of `listeners`, gathered in order into a sequence of their
/// own.
pub fn gather_listeners(listeners: &Vec<Listener>) -> (gathered: Vec<Listener>)
    ensures
        listener_models(gathered@) == listener_models(listeners@),
{
    let mut gathered: Vec<Listener> = Vec::new();
    let ghost before = gathered;
    let result = process_all::<Listener, ListenersToVec>(listeners, &mut gathered);
    proof {
        if result is Ok {
            lemma_gathered(before, listeners@, gathered);
            assert(listener_models(before@) + listener_models(listeners@) =~= listener_models(
                listeners@,
            ));
        }
    }
    gathered
}

} // verus!
