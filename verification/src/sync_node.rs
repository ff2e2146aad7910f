//! What the mutations for one node do to the document: the listeners and
//! the attributes that the document holds for the node follow those that the
//! materialized node retains.

use vstd::prelude::*;
use crate::document::{DocumentModel, OpModel};
use crate::dom::{keys_unique, AttributeModel, AttributeValueModel, ListenerModel};
use crate::host::{accepted, bounded, lemma_run_push, run, Attachment, HostModel, HostNode};
use crate::pass::{
    attach_all, attach_missing, detach_op, detach_stale, no_longer_declared,
    remove_attribute_op, remove_stale, serves, set_all, set_attribute_op, set_missing,
    still_declared, unwanted, wanted,
};
use crate::sequences::{
    lemma_filter_empty, lemma_filter_members, lemma_filter_take_next, lemma_take_next,
};
use crate::sync::{
    attachment, attachment_map, attribute_key, attribute_map, attribute_value, keyed, keys_differ,
    lemma_keyed_at, lemma_keyed_push, lemma_keyed_remove, listener_handle,
};
use crate::vdom::AttachedModel;

verus! {

/// The document `host` with the listeners of the node `handle` replaced.
pub open spec fn with_listeners(host: HostModel, handle: int, attached: Seq<AttachedModel>, keys: Seq<u32>) -> HostModel {
    host.with(
        handle,
        HostNode { listeners: attachment_map(attached, keys), ..host.nodes[handle] },
    )
}

/// The document `host` with the attributes of the node `handle` replaced.
pub open spec fn with_attributes(host: HostModel, handle: int, attributes: Seq<AttributeModel>) -> HostModel {
    host.with(handle, HostNode { attributes: attribute_map(attributes), ..host.nodes[handle] })
}

/// Keys that differ in the sense of the attributes differ as keys.
pub proof fn lemma_keys_unique_differ(attributes: Seq<AttributeModel>)
    ensures
        keys_unique(attributes) == keys_differ(attributes, attribute_key()),
{
    if keys_unique(attributes) {
        assert forall|i: int, j: int| 0 <= i < j < attributes.len() implies attribute_key()(
            #[trigger] attributes[i],
        ) != attribute_key()(#[trigger] attributes[j]) by {
            assert(attributes[i].key != attributes[j].key);
        }
    }
    if keys_differ(attributes, attribute_key()) {
        assert forall|i: int, j: int| 0 <= i < j < attributes.len() implies (
        #[trigger] attributes[i]).key != (#[trigger] attributes[j]).key by {
            assert(attribute_key()(attributes[i]) != attribute_key()(attributes[j]));
        }
    }
}

/// Detaching the stale listeners among the first `k` attached ones leaves in
/// the document those of them that stay and those behind them.
proof fn lemma_detach_prefix(
    start: HostModel,
    handle: int,
    attached: Seq<AttachedModel>,
    declared: Seq<ListenerModel>,
    doc: DocumentModel,
    keys: Seq<u32>,
    k: int,
)
    requires
        accepted(start, doc.ops),
        run(start, doc.ops).has(handle),
        run(start, doc.ops).nodes[handle].listeners == attachment_map(attached, keys),
        keys_differ(attached, listener_handle()),
        0 <= k <= attached.len(),
    ensures
        ({
            let host = run(start, doc.ops);
            let ops = doc.ops + attached.take(k).filter(unwanted(declared)).map_values(
                detach_op(handle),
            );
            let current = attached.take(k).filter(wanted(declared)) + attached.skip(k);
            &&& accepted(start, ops)
            &&& run(start, ops) == with_listeners(host, handle, current, keys)
            &&& keys_differ(current, listener_handle())
            &&& attached.take(k).filter(wanted(declared)).len() + attached.len() - k
                == current.len()
        }),
    decreases k,
{
    let host = run(start, doc.ops);
    let stay = wanted(declared);
    let go = unwanted(declared);
    if k == 0 {
        lemma_filter_empty(stay);
        lemma_filter_empty(go);
        assert(attached.take(0) =~= Seq::empty());
        let current = attached.take(0).filter(stay) + attached.skip(0);
        assert(current =~= attached);
        assert(doc.ops + attached.take(0).filter(go).map_values(detach_op(handle)) =~= doc.ops);
        assert(host.nodes.insert(handle, host.nodes[handle]) =~= host.nodes);
    } else {
        let n = k - 1;
        lemma_detach_prefix(start, handle, attached, declared, doc, keys, n);
        lemma_filter_take_next(attached, n, stay);
        lemma_filter_take_next(attached, n, go);
        let a = attached[n];
        let kept = attached.take(n).filter(stay);
        let gone = attached.take(n).filter(go);
        let ops = doc.ops + gone.map_values(detach_op(handle));
        let current = kept + attached.skip(n);
        let before = run(start, ops);
        assert(current[kept.len() as int] == a);
        if stay(a) {
            assert(kept.push(a) + attached.skip(k) =~= current);
        } else {
            let op = OpModel::DetachListener { handle, event: a.event, listener: a.handle };
            assert(gone.push(a).map_values(detach_op(handle)) =~= gone.map_values(
                detach_op(handle),
            ).push(op));
            assert(doc.ops + gone.push(a).map_values(detach_op(handle)) =~= ops.push(op));
            lemma_run_push(start, ops, op);
            lemma_keyed_at(current, listener_handle(), attachment(keys), kept.len() as int);
            lemma_keyed_remove(current, listener_handle(), attachment(keys), kept.len() as int);
            assert(kept + attached.skip(k) =~= current.remove(kept.len() as int));
            assert(before.apply(op).nodes =~= with_listeners(
                host,
                handle,
                kept + attached.skip(k),
                keys,
            ).nodes);
        }
    }
}

/// Detaching the stale listeners of a node leaves in the document exactly
/// the listeners that stay; nothing else in the document changes.
pub proof fn lemma_detach_stale_host(
    start: HostModel,
    handle: int,
    attached: Seq<AttachedModel>,
    declared: Seq<ListenerModel>,
    doc: DocumentModel,
    keys: Seq<u32>,
)
    requires
        accepted(start, doc.ops),
        run(start, doc.ops).has(handle),
        run(start, doc.ops).nodes[handle].listeners == attachment_map(attached, keys),
        keys_differ(attached, listener_handle()),
    ensures
        ({
            let (kept, d) = detach_stale(handle, attached, declared, doc);
            &&& accepted(start, d.ops)
            &&& run(start, d.ops) == with_listeners(run(start, doc.ops), handle, kept, keys)
            &&& keys_differ(kept, listener_handle())
            &&& d.next == doc.next
            &&& forall|i: int|
                0 <= i < kept.len() ==> keyed(
                    attached,
                    listener_handle(),
                    (#[trigger] kept[i]).handle,
                )
        }),
{
    let n = attached.len() as int;
    lemma_detach_prefix(start, handle, attached, declared, doc, keys, n);
    assert(attached.take(n) =~= attached);
    let (kept, d) = detach_stale(handle, attached, declared, doc);
    assert(kept + attached.skip(n) =~= kept);
    lemma_filter_members(attached, wanted(declared));
    assert forall|i: int| 0 <= i < kept.len() implies keyed(
        attached,
        listener_handle(),
        (#[trigger] kept[i]).handle,
    ) by {
        assert(kept.contains(kept[i]));
        assert(attached.contains(kept[i]));
        let j = choose|j: int| 0 <= j < attached.len() && attached[j] == kept[i];
        assert(listener_handle()(attached[j]) == kept[i].handle);
    }
}

/// Attaching the missing listeners of a node adds them to the listeners that
/// the document holds for it; nothing else in the document changes, and the
/// new listeners have the handles that were handed out on the way.
pub proof fn lemma_attach_missing_host(
    start: HostModel,
    handle: int,
    path: Seq<u32>,
    attached: Seq<AttachedModel>,
    declared: Seq<ListenerModel>,
    doc: DocumentModel,
)
    requires
        accepted(start, doc.ops),
        run(start, doc.ops).has(handle),
        run(start, doc.ops).nodes[handle].listeners == attachment_map(attached, path),
        keys_differ(attached, listener_handle()),
        bounded(run(start, doc.ops), doc.next),
        forall|i: int| 0 <= i < attached.len() ==> (#[trigger] attached[i]).handle < doc.next,
    ensures
        ({
            let (after, d) = attach_missing(handle, path, attached, declared, doc);
            &&& accepted(start, d.ops)
            &&& run(start, d.ops) == with_listeners(run(start, doc.ops), handle, after, path)
            &&& keys_differ(after, listener_handle())
            &&& doc.next <= d.next
            &&& attached.len() <= after.len()
            &&& after.take(attached.len() as int) == attached
            &&& forall|i: int|
                attached.len() <= i < after.len() ==> doc.next <= (#[trigger] after[i]).handle
                    < d.next
        }),
    decreases declared.len(),
{
    let host = run(start, doc.ops);
    if declared.len() == 0 {
        assert(host.nodes.insert(handle, host.nodes[handle]) =~= host.nodes);
        assert(attached.take(attached.len() as int) =~= attached);
    } else {
        let rest = declared.drop_last();
        let l = declared.last();
        lemma_attach_missing_host(start, handle, path, attached, rest, doc);
        let (before, d0) = attach_missing(handle, path, attached, rest, doc);
        let (after, d) = attach_missing(handle, path, attached, declared, doc);
        let prior = run(start, d0.ops);
        assert(after.take(attached.len() as int) =~= before.take(attached.len() as int));
        if !serves(before, l) {
            let a = AttachedModel { handle: d0.next, handler: l.handler, event: l.event };
            let op = OpModel::AttachListener {
                handle,
                event: l.event,
                handler: l.handler,
                keys: path,
                listener: d0.next,
            };
            lemma_run_push(start, d0.ops, op);
            assert forall|i: int| 0 <= i < before.len() implies (#[trigger] before[i]).handle
                < d0.next by {
                if i < attached.len() {
                    assert(before.take(attached.len() as int)[i] == attached[i]);
                }
            }
            if keyed(before, listener_handle(), d0.next) {
                let i = choose|i: int|
                    0 <= i < before.len() && listener_handle()(#[trigger] before[i]) == d0.next;
                assert(before[i].handle < d0.next);
            }
            lemma_keyed_push(before, listener_handle(), attachment(path), a);
            assert(prior.has(handle));
            if prior.has(d0.next) {
                assert(host.has(d0.next));
            }
            assert(prior.apply(op).nodes =~= with_listeners(host, handle, after, path).nodes);
        }
    }
}

/// Attaching all declared listeners to a node that holds none leaves in the
/// document exactly the new listeners; nothing else in the document changes.
pub proof fn lemma_attach_all_host(
    start: HostModel,
    handle: int,
    path: Seq<u32>,
    declared: Seq<ListenerModel>,
    doc: DocumentModel,
)
    requires
        accepted(start, doc.ops),
        run(start, doc.ops).has(handle),
        run(start, doc.ops).nodes[handle].listeners == Map::<int, Attachment>::empty(),
        bounded(run(start, doc.ops), doc.next),
    ensures
        ({
            let (after, d) = attach_all(handle, path, declared, doc);
            &&& accepted(start, d.ops)
            &&& run(start, d.ops) == with_listeners(run(start, doc.ops), handle, after, path)
            &&& keys_differ(after, listener_handle())
            &&& d.next == doc.next + declared.len()
            &&& forall|i: int|
                0 <= i < after.len() ==> doc.next <= (#[trigger] after[i]).handle < d.next
        }),
    decreases declared.len(),
{
    let host = run(start, doc.ops);
    if declared.len() == 0 {
        assert(attachment_map(Seq::empty(), path) =~= Map::<int, Attachment>::empty());
        assert(host.nodes.insert(handle, host.nodes[handle]) =~= host.nodes);
    } else {
        let rest = declared.drop_last();
        let l = declared.last();
        lemma_attach_all_host(start, handle, path, rest, doc);
        let (before, d0) = attach_all(handle, path, rest, doc);
        let (after, d) = attach_all(handle, path, declared, doc);
        let prior = run(start, d0.ops);
        let a = AttachedModel { handle: d0.next, handler: l.handler, event: l.event };
        let op = OpModel::AttachListener {
            handle,
            event: l.event,
            handler: l.handler,
            keys: path,
            listener: d0.next,
        };
        lemma_run_push(start, d0.ops, op);
        if keyed(before, listener_handle(), d0.next) {
            let i = choose|i: int|
                0 <= i < before.len() && listener_handle()(#[trigger] before[i]) == d0.next;
            assert(before[i].handle < d0.next);
        }
        lemma_keyed_push(before, listener_handle(), attachment(path), a);
        if prior.has(d0.next) {
            assert(host.has(d0.next));
        }
        assert(prior.apply(op).nodes =~= with_listeners(host, handle, after, path).nodes);
    }
}

/// Removing the stale attributes among the first `k` retained ones leaves in
/// the document those of them that stay and those behind them.
proof fn lemma_remove_prefix(
    start: HostModel,
    handle: int,
    retained: Seq<AttributeModel>,
    declared: Seq<AttributeModel>,
    doc: DocumentModel,
    k: int,
)
    requires
        accepted(start, doc.ops),
        run(start, doc.ops).has(handle),
        run(start, doc.ops).nodes[handle].attributes == attribute_map(retained),
        keys_differ(retained, attribute_key()),
        0 <= k <= retained.len(),
    ensures
        ({
            let host = run(start, doc.ops);
            let ops = doc.ops + retained.take(k).filter(no_longer_declared(declared)).map_values(
                remove_attribute_op(handle),
            );
            let current = retained.take(k).filter(still_declared(declared)) + retained.skip(k);
            &&& accepted(start, ops)
            &&& run(start, ops) == with_attributes(host, handle, current)
            &&& keys_differ(current, attribute_key())
            &&& retained.take(k).filter(still_declared(declared)).len() + retained.len() - k
                == current.len()
        }),
    decreases k,
{
    let host = run(start, doc.ops);
    let stay = still_declared(declared);
    let go = no_longer_declared(declared);
    if k == 0 {
        lemma_filter_empty(stay);
        lemma_filter_empty(go);
        assert(retained.take(0) =~= Seq::empty());
        let current = retained.take(0).filter(stay) + retained.skip(0);
        assert(current =~= retained);
        assert(doc.ops + retained.take(0).filter(go).map_values(remove_attribute_op(handle))
            =~= doc.ops);
        assert(host.nodes.insert(handle, host.nodes[handle]) =~= host.nodes);
    } else {
        let n = k - 1;
        lemma_remove_prefix(start, handle, retained, declared, doc, n);
        lemma_filter_take_next(retained, n, stay);
        lemma_filter_take_next(retained, n, go);
        let a = retained[n];
        let kept = retained.take(n).filter(stay);
        let gone = retained.take(n).filter(go);
        let ops = doc.ops + gone.map_values(remove_attribute_op(handle));
        let current = kept + retained.skip(n);
        let before = run(start, ops);
        assert(current[kept.len() as int] == a);
        if stay(a) {
            assert(kept.push(a) + retained.skip(k) =~= current);
        } else {
            let op = OpModel::RemoveAttribute { handle, key: a.key };
            assert(gone.push(a).map_values(remove_attribute_op(handle)) =~= gone.map_values(
                remove_attribute_op(handle),
            ).push(op));
            assert(doc.ops + gone.push(a).map_values(remove_attribute_op(handle)) =~= ops.push(
                op,
            ));
            lemma_run_push(start, ops, op);
            lemma_keyed_remove(current, attribute_key(), attribute_value(), kept.len() as int);
            assert(kept + retained.skip(k) =~= current.remove(kept.len() as int));
            assert(before.apply(op).nodes =~= with_attributes(
                host,
                handle,
                kept + retained.skip(k),
            ).nodes);
        }
    }
}

/// Removing the stale attributes of a node leaves in the document exactly
/// the attributes that stay; nothing else in the document changes.
pub proof fn lemma_remove_stale_host(
    start: HostModel,
    handle: int,
    retained: Seq<AttributeModel>,
    declared: Seq<AttributeModel>,
    doc: DocumentModel,
)
    requires
        accepted(start, doc.ops),
        run(start, doc.ops).has(handle),
        run(start, doc.ops).nodes[handle].attributes == attribute_map(retained),
        keys_unique(retained),
    ensures
        ({
            let (kept, d) = remove_stale(handle, retained, declared, doc);
            &&& accepted(start, d.ops)
            &&& run(start, d.ops) == with_attributes(run(start, doc.ops), handle, kept)
            &&& keys_unique(kept)
            &&& d.next == doc.next
            &&& forall|i: int| 0 <= i < kept.len() ==> declared.contains(#[trigger] kept[i])
        }),
{
    let n = retained.len() as int;
    lemma_keys_unique_differ(retained);
    lemma_remove_prefix(start, handle, retained, declared, doc, n);
    assert(retained.take(n) =~= retained);
    let (kept, d) = remove_stale(handle, retained, declared, doc);
    assert(kept + retained.skip(n) =~= kept);
    lemma_keys_unique_differ(kept);
    lemma_filter_members(retained, still_declared(declared));
    assert forall|i: int| 0 <= i < kept.len() implies declared.contains(#[trigger] kept[i]) by {
        assert(kept.contains(kept[i]));
    }
}

/// Setting the attributes that are missing among the first `n` declared ones
/// adds them to the attributes that the document holds for the node;
/// nothing else in the document changes.
proof fn lemma_set_prefix(
    start: HostModel,
    handle: int,
    retained: Seq<AttributeModel>,
    declared: Seq<AttributeModel>,
    doc: DocumentModel,
    n: int,
)
    requires
        accepted(start, doc.ops),
        run(start, doc.ops).has(handle),
        run(start, doc.ops).nodes[handle].attributes == attribute_map(retained),
        keys_unique(retained),
        keys_unique(declared),
        forall|i: int| 0 <= i < retained.len() ==> declared.contains(#[trigger] retained[i]),
        0 <= n <= declared.len(),
    ensures
        ({
            let (after, d) = set_missing(handle, retained, declared.take(n), doc);
            &&& accepted(start, d.ops)
            &&& run(start, d.ops) == with_attributes(run(start, doc.ops), handle, after)
            &&& keys_differ(after, attribute_key())
            &&& d.next == doc.next
            &&& forall|i: int| 0 <= i < after.len() ==> declared.contains(#[trigger] after[i])
        }),
    decreases n,
{
    let host = run(start, doc.ops);
    if n == 0 {
        assert(declared.take(0) =~= Seq::empty());
        lemma_keys_unique_differ(retained);
        assert(host.nodes.insert(handle, host.nodes[handle]) =~= host.nodes);
    } else {
        let m = n - 1;
        lemma_set_prefix(start, handle, retained, declared, doc, m);
        lemma_take_next(declared, m);
        let a = declared[m];
        let (before, d0) = set_missing(handle, retained, declared.take(m), doc);
        let (after, d) = set_missing(handle, retained, declared.take(n), doc);
        let prior = run(start, d0.ops);
        if !before.contains(a) {
            let op = OpModel::SetAttribute { handle, attribute: a };
            lemma_run_push(start, d0.ops, op);
            if keyed(before, attribute_key(), a.key) {
                let i = choose|i: int|
                    0 <= i < before.len() && attribute_key()(#[trigger] before[i]) == a.key;
                assert(declared.contains(before[i]));
                let j = choose|j: int| 0 <= j < declared.len() && declared[j] == before[i];
                if j < m {
                    assert(declared[j].key != declared[m].key);
                } else if m < j {
                    assert(declared[m].key != declared[j].key);
                } else {
                    assert(before[i] == a);
                }
                assert(false);
            }
            lemma_keyed_push(before, attribute_key(), attribute_value(), a);
            assert(prior.apply(op).nodes =~= with_attributes(host, handle, after).nodes);
            assert forall|i: int| 0 <= i < after.len() implies declared.contains(
                #[trigger] after[i],
            ) by {
                if i < before.len() {
                    assert(after[i] == before[i]);
                } else {
                    assert(declared[m] == after[i]);
                }
            }
        }
    }
}

/// Setting the missing attributes of a node adds them to the attributes that
/// the document holds for it; nothing else in the document changes.
pub proof fn lemma_set_missing_host(
    start: HostModel,
    handle: int,
    retained: Seq<AttributeModel>,
    declared: Seq<AttributeModel>,
    doc: DocumentModel,
)
    requires
        accepted(start, doc.ops),
        run(start, doc.ops).has(handle),
        run(start, doc.ops).nodes[handle].attributes == attribute_map(retained),
        keys_unique(retained),
        keys_unique(declared),
        forall|i: int| 0 <= i < retained.len() ==> declared.contains(#[trigger] retained[i]),
    ensures
        ({
            let (after, d) = set_missing(handle, retained, declared, doc);
            &&& accepted(start, d.ops)
            &&& run(start, d.ops) == with_attributes(run(start, doc.ops), handle, after)
            &&& keys_unique(after)
            &&& d.next == doc.next
        }),
{
    lemma_set_prefix(start, handle, retained, declared, doc, declared.len() as int);
    assert(declared.take(declared.len() as int) =~= declared);
    lemma_keys_unique_differ(set_missing(handle, retained, declared, doc).0);
}

/// Setting the first `n` declared attributes on a node that holds none
/// leaves in the document exactly these.
proof fn lemma_set_all_prefix(
    start: HostModel,
    handle: int,
    declared: Seq<AttributeModel>,
    doc: DocumentModel,
    n: int,
)
    requires
        accepted(start, doc.ops),
        run(start, doc.ops).has(handle),
        run(start, doc.ops).nodes[handle].attributes == Map::<
            Seq<char>,
            AttributeValueModel,
        >::empty(),
        keys_unique(declared),
        0 <= n <= declared.len(),
    ensures
        ({
            let ops = doc.ops + declared.take(n).map_values(set_attribute_op(handle));
            &&& accepted(start, ops)
            &&& run(start, ops) == with_attributes(run(start, doc.ops), handle, declared.take(n))
            &&& keys_differ(declared.take(n), attribute_key())
        }),
    decreases n,
{
    let host = run(start, doc.ops);
    if n == 0 {
        assert(declared.take(0) =~= Seq::empty());
        assert(doc.ops + declared.take(0).map_values(set_attribute_op(handle)) =~= doc.ops);
        assert(attribute_map(Seq::empty()) =~= Map::<
            Seq<char>,
            AttributeValueModel,
        >::empty());
        assert(host.nodes.insert(handle, host.nodes[handle]) =~= host.nodes);
    } else {
        let m = n - 1;
        lemma_set_all_prefix(start, handle, declared, doc, m);
        lemma_take_next(declared, m);
        let a = declared[m];
        let before = declared.take(m);
        let ops = doc.ops + before.map_values(set_attribute_op(handle));
        let op = OpModel::SetAttribute { handle, attribute: a };
        assert(doc.ops + declared.take(n).map_values(set_attribute_op(handle)) =~= ops.push(op));
        lemma_run_push(start, ops, op);
        if keyed(before, attribute_key(), a.key) {
            let i = choose|i: int|
                0 <= i < before.len() && attribute_key()(#[trigger] before[i]) == a.key;
            assert(declared[i].key != declared[m].key);
        }
        lemma_keyed_push(before, attribute_key(), attribute_value(), a);
        assert(run(start, ops).apply(op).nodes =~= with_attributes(
            host,
            handle,
            declared.take(n),
        ).nodes);
    }
}

/// Setting all declared attributes on a node that holds none leaves in the
/// document exactly the declared ones; nothing else in the document changes.
pub proof fn lemma_set_all_host(
    start: HostModel,
    handle: int,
    declared: Seq<AttributeModel>,
    doc: DocumentModel,
)
    requires
        accepted(start, doc.ops),
        run(start, doc.ops).has(handle),
        run(start, doc.ops).nodes[handle].attributes == Map::<
            Seq<char>,
            AttributeValueModel,
        >::empty(),
        keys_unique(declared),
    ensures
        accepted(start, set_all(handle, declared, doc).ops),
        run(start, set_all(handle, declared, doc).ops) == with_attributes(
            run(start, doc.ops),
            handle,
            declared,
        ),
        set_all(handle, declared, doc).next == doc.next,
{
    lemma_set_all_prefix(start, handle, declared, doc, declared.len() as int);
    assert(declared.take(declared.len() as int) =~= declared);
}

} // verus!
