//! The reconciler: it walks a new rendering against the materialized tree,
//! reuses what matches, creates what is missing, removes what is left, and
//! records every host mutation on the way.

use vstd::prelude::*;
use crate::document::WebDocument;
use crate::dom::{
    attribute_models, listener_models, node_models, DomNode, DomValue, KeyValue, Listener,
    ListenerModel, NodeModel,
};
use crate::keys::Keys;
use crate::laws::{law_attributes_converge, law_listeners_converge, law_reconcile_renders};
use crate::pass;
use crate::pass::{
    add_all, all_keys_fit, attach_all, attach_missing, declares, detach_op, detach_stale,
    diff_attributes, diff_listeners, level_renders,
    first_match, handles_needed, handles_needed_all, is_match, keys_fit, no_longer_declared,
    remove_attribute_op, remove_op, remove_stale, remove_trailing, serves, set_all, set_attribute_op,
    set_missing, still_declared, trailing_removals, unwanted, wanted, Pass,
};
use crate::sequences::{lemma_filter_empty, lemma_filter_take_next, lemma_take_next};
use crate::vdom::{attached_models, level_models, AttachedListener, AttachedModel, VDomNode};

verus! {

/// Looks for the materialized node to reuse: the first entry of `level` at or
/// after `from` whose key path is `keys` and whose value is `value`.
pub fn find_match(level: &Vec<VDomNode>, from: usize, keys: &Keys, value: &DomValue) -> (found:
    Option<usize>)
    ensures
        match found {
            Some(index) => from <= index < level.len() && index as int == first_match(
                level_models(level@),
                from as int,
                keys@,
                value@,
            ),
            None => first_match(level_models(level@), from as int, keys@, value@) == level.len(),
        },
{
    let mut index = from;
    while index < level.len()
        invariant
            from <= index,
            first_match(level_models(level@), from as int, keys@, value@) == first_match(
                level_models(level@),
                index as int,
                keys@,
                value@,
            ),
        decreases level.len() - index,
    {
        let entry = &level[index];
        if entry.keys == *keys && entry.value.same_as(value) {
            assert(is_match(level_models(level@)[index as int], keys@, value@));
            return Some(index);
        }
        assert(!is_match(level_models(level@)[index as int], keys@, value@));
        index += 1;
    }
    None
}

/// Whether the declared listeners hold the one that `attached` serves.
pub fn is_declared(declared: &Vec<Listener>, attached: &AttachedListener) -> (b: bool)
    ensures
        b == declares(listener_models(declared@), attached@),
{
    let mut i: usize = 0;
    while i < declared.len()
        invariant
            i <= declared.len(),
            forall|j: int| 0 <= j < i ==> listener_models(declared@)[j] != attached@.listener(),
        decreases declared.len() - i,
    {
        if declared[i].handler == attached.handler && declared[i].event == attached.event {
            assert(listener_models(declared@)[i as int] == attached@.listener());
            return true;
        }
        i += 1;
    }
    false
}

/// Whether one of the attached listeners serves the declared listener
/// `listener`.
pub fn is_served(attached: &Vec<AttachedListener>, listener: &Listener) -> (b: bool)
    ensures
        b == serves(attached_models(attached@), listener@),
{
    let mut i: usize = 0;
    while i < attached.len()
        invariant
            i <= attached.len(),
            forall|j: int| 0 <= j < i ==> attached_models(attached@)[j].listener() != listener@,
        decreases attached.len() - i,
    {
        if attached[i].handler == listener.handler && attached[i].event == listener.event {
            assert(attached_models(attached@)[i as int].listener() == listener@);
            return true;
        }
        i += 1;
    }
    false
}

/// Whether `attributes` holds an attribute with the key and the value of
/// `attribute`.
pub fn has_attribute(attributes: &Vec<KeyValue>, attribute: &KeyValue) -> (b: bool)
    ensures
        b == attribute_models(attributes@).contains(attribute@),
{
    let mut i: usize = 0;
    while i < attributes.len()
        invariant
            i <= attributes.len(),
            forall|j: int| 0 <= j < i ==> attribute_models(attributes@)[j] != attribute@,
        decreases attributes.len() - i,
    {
        if attributes[i].same_as(attribute) {
            assert(attribute_models(attributes@)[i as int] == attribute@);
            return true;
        }
        i += 1;
    }
    false
}

/// Detaches from the node `handle` every attached listener that is no longer
/// declared, and forgets it.
pub fn remove_stale_listeners(
    doc: &mut WebDocument,
    handle: u64,
    attached: &mut Vec<AttachedListener>,
    declared: &Vec<Listener>,
)
    ensures
        (attached_models(final(attached)@), final(doc)@) == detach_stale(
            handle as int,
            attached_models(old(attached)@),
            listener_models(declared@),
            old(doc)@,
        ),
{
    let ghost orig = attached_models(attached@);
    let ghost stay = wanted(listener_models(declared@));
    let ghost go = unwanted(listener_models(declared@));
    let ghost start = doc@;
    let ghost mut seen: int = 0;
    let mut i: usize = 0;
    proof {
        lemma_filter_empty(stay);
        lemma_filter_empty(go);
        assert(orig.take(0) =~= Seq::empty());
    }
    while i < attached.len()
        invariant
            i <= attached@.len(),
            seen == i + orig.len() - attached@.len(),
            0 <= seen <= orig.len(),
            attached_models(attached@).skip(i as int) =~= orig.skip(seen),
            attached_models(attached@).take(i as int) =~= orig.take(seen).filter(stay),
            doc@.ops =~= start.ops + orig.take(seen).filter(go).map_values(
                detach_op(handle as int),
            ),
            doc@.next == start.next,
            stay == wanted(listener_models(declared@)),
            go == unwanted(listener_models(declared@)),
        decreases attached@.len() - i,
    {
        let ghost current = attached_models(attached@);
        proof {
            assert(current.skip(i as int)[0] == orig.skip(seen)[0]);
            assert(current[i as int] == orig[seen]);
            lemma_filter_take_next(orig, seen, stay);
            lemma_filter_take_next(orig, seen, go);
        }
        if is_declared(declared, &attached[i]) {
            proof {
                assert(current.take(i + 1) =~= current.take(i as int).push(current[i as int]));
                assert(current.skip(i + 1) =~= current.skip(i as int).skip(1));
                assert(orig.skip(seen + 1) =~= orig.skip(seen).skip(1));
                seen = seen + 1;
            }
            i += 1;
        } else {
            doc.remove_listener(handle, attached[i].event.as_str(), attached[i].handle);
            let _ = attached.remove(i);
            proof {
                let after = attached_models(attached@);
                assert(after =~= current.remove(i as int));
                assert(after.take(i as int) =~= current.take(i as int));
                assert(after.skip(i as int) =~= current.skip(i as int).skip(1));
                assert(orig.skip(seen + 1) =~= orig.skip(seen).skip(1));
                seen = seen + 1;
            }
        }
    }
    proof {
        assert(attached_models(attached@).take(i as int) =~= attached_models(attached@));
        assert(orig.skip(seen).len() == 0);
        assert(orig.take(seen) =~= orig);
    }
}

/// Attaches to the node `handle`, whose key path is `keys`, every declared
/// listener that no attached listener serves yet, and remembers it.
pub fn attach_new_listeners(
    doc: &mut WebDocument,
    handle: u64,
    keys: &Keys,
    attached: &mut Vec<AttachedListener>,
    declared: &Vec<Listener>,
)
    requires
        old(doc)@.next + declared@.len() <= u64::MAX,
    ensures
        (attached_models(final(attached)@), final(doc)@) == attach_missing(
            handle as int,
            keys@,
            attached_models(old(attached)@),
            listener_models(declared@),
            old(doc)@,
        ),
        old(doc)@.next <= final(doc)@.next <= old(doc)@.next + declared@.len(),
{
    let ghost wish = listener_models(declared@);
    let ghost orig = attached_models(attached@);
    let ghost start = doc@;
    let mut i: usize = 0;
    proof {
        assert(wish.take(0) =~= Seq::empty());
    }
    while i < declared.len()
        invariant
            i <= declared@.len(),
            wish == listener_models(declared@),
            (attached_models(attached@), doc@) == attach_missing(
                handle as int,
                keys@,
                orig,
                wish.take(i as int),
                start,
            ),
            start.next <= doc@.next <= start.next + i,
            start.next + declared@.len() <= u64::MAX,
        decreases declared@.len() - i,
    {
        let listener = &declared[i];
        proof {
            lemma_take_next(wish, i as int);
        }
        if !is_served(attached, listener) {
            let ghost before = attached_models(attached@);
            let attached_handle = doc.set_listener(
                handle,
                listener.event.as_str(),
                listener.handler,
                *keys,
            );
            attached.push(
                AttachedListener {
                    handle: attached_handle,
                    handler: listener.handler,
                    event: listener.event.clone(),
                },
            );
            proof {
                assert(attached_models(attached@) =~= before.push(
                    AttachedModel {
                        handle: attached_handle as int,
                        handler: listener@.handler,
                        event: listener@.event,
                    },
                ));
            }
        }
        i += 1;
    }
    proof {
        assert(wish.take(i as int) =~= wish);
    }
}

/// Attaches to the node `handle`, which was just created with the key path
/// `keys`, every declared listener.
pub fn attach_all_listeners(doc: &mut WebDocument, handle: u64, keys: &Keys, declared: &Vec<Listener>) -> (attached:
    Vec<AttachedListener>)
    requires
        old(doc)@.next + declared@.len() <= u64::MAX,
    ensures
        (attached_models(attached@), final(doc)@) == attach_all(
            handle as int,
            keys@,
            listener_models(declared@),
            old(doc)@,
        ),
        final(doc)@.next == old(doc)@.next + declared@.len(),
{
    let ghost wish = listener_models(declared@);
    let ghost start = doc@;
    let mut attached: Vec<AttachedListener> = Vec::new();
    let mut i: usize = 0;
    proof {
        assert(wish.take(0) =~= Seq::empty());
        assert(attached_models(attached@) =~= Seq::empty());
    }
    while i < declared.len()
        invariant
            i <= declared@.len(),
            wish == listener_models(declared@),
            (attached_models(attached@), doc@) == attach_all(
                handle as int,
                keys@,
                wish.take(i as int),
                start,
            ),
            doc@.next == start.next + i,
            start.next + declared@.len() <= u64::MAX,
        decreases declared@.len() - i,
    {
        let listener = &declared[i];
        let ghost before = attached_models(attached@);
        proof {
            lemma_take_next(wish, i as int);
        }
        let attached_handle = doc.set_listener(
            handle,
            listener.event.as_str(),
            listener.handler,
            *keys,
        );
        attached.push(
            AttachedListener {
                handle: attached_handle,
                handler: listener.handler,
                event: listener.event.clone(),
            },
        );
        proof {
            assert(attached_models(attached@) =~= before.push(
                AttachedModel {
                    handle: attached_handle as int,
                    handler: listener@.handler,
                    event: listener@.event,
                },
            ));
        }
        i += 1;
    }
    proof {
        assert(wish.take(i as int) =~= wish);
    }
    attached
}

/// Removes from the node `handle` every retained attribute that is no longer
/// declared with the same key and value, and forgets it.
pub fn remove_stale_attributes(
    doc: &mut WebDocument,
    handle: u64,
    retained: &mut Vec<KeyValue>,
    declared: &Vec<KeyValue>,
)
    ensures
        (attribute_models(final(retained)@), final(doc)@) == remove_stale(
            handle as int,
            attribute_models(old(retained)@),
            attribute_models(declared@),
            old(doc)@,
        ),
{
    let ghost orig = attribute_models(retained@);
    let ghost stay = still_declared(attribute_models(declared@));
    let ghost go = no_longer_declared(attribute_models(declared@));
    let ghost start = doc@;
    let ghost mut seen: int = 0;
    let mut i: usize = 0;
    proof {
        lemma_filter_empty(stay);
        lemma_filter_empty(go);
        assert(orig.take(0) =~= Seq::empty());
    }
    while i < retained.len()
        invariant
            i <= retained@.len(),
            seen == i + orig.len() - retained@.len(),
            0 <= seen <= orig.len(),
            attribute_models(retained@).skip(i as int) =~= orig.skip(seen),
            attribute_models(retained@).take(i as int) =~= orig.take(seen).filter(stay),
            doc@.ops =~= start.ops + orig.take(seen).filter(go).map_values(
                remove_attribute_op(handle as int),
            ),
            doc@.next == start.next,
            stay == still_declared(attribute_models(declared@)),
            go == no_longer_declared(attribute_models(declared@)),
        decreases retained@.len() - i,
    {
        let ghost current = attribute_models(retained@);
        proof {
            assert(current.skip(i as int)[0] == orig.skip(seen)[0]);
            assert(current[i as int] == orig[seen]);
            lemma_filter_take_next(orig, seen, stay);
            lemma_filter_take_next(orig, seen, go);
        }
        if has_attribute(declared, &retained[i]) {
            proof {
                assert(current.take(i + 1) =~= current.take(i as int).push(current[i as int]));
                assert(current.skip(i + 1) =~= current.skip(i as int).skip(1));
                assert(orig.skip(seen + 1) =~= orig.skip(seen).skip(1));
                seen = seen + 1;
            }
            i += 1;
        } else {
            doc.remove_attribute(handle, retained[i].0.as_str());
            let _ = retained.remove(i);
            proof {
                let after = attribute_models(retained@);
                assert(after =~= current.remove(i as int));
                assert(after.take(i as int) =~= current.take(i as int));
                assert(after.skip(i as int) =~= current.skip(i as int).skip(1));
                assert(orig.skip(seen + 1) =~= orig.skip(seen).skip(1));
                seen = seen + 1;
            }
        }
    }
    proof {
        assert(attribute_models(retained@).take(i as int) =~= attribute_models(retained@));
        assert(orig.skip(seen).len() == 0);
        assert(orig.take(seen) =~= orig);
    }
}

/// Sets on the node `handle` every declared attribute that is not retained
/// with the same key and value, and remembers it.
pub fn set_new_attributes(
    doc: &mut WebDocument,
    handle: u64,
    retained: &mut Vec<KeyValue>,
    declared: &Vec<KeyValue>,
)
    ensures
        (attribute_models(final(retained)@), final(doc)@) == set_missing(
            handle as int,
            attribute_models(old(retained)@),
            attribute_models(declared@),
            old(doc)@,
        ),
        final(doc)@.next == old(doc)@.next,
{
    let ghost wish = attribute_models(declared@);
    let ghost orig = attribute_models(retained@);
    let ghost start = doc@;
    let mut i: usize = 0;
    proof {
        assert(wish.take(0) =~= Seq::empty());
    }
    while i < declared.len()
        invariant
            i <= declared@.len(),
            wish == attribute_models(declared@),
            (attribute_models(retained@), doc@) == set_missing(
                handle as int,
                orig,
                wish.take(i as int),
                start,
            ),
            doc@.next == start.next,
        decreases declared@.len() - i,
    {
        let attribute = &declared[i];
        proof {
            lemma_take_next(wish, i as int);
        }
        if !has_attribute(retained, attribute) {
            let ghost before = attribute_models(retained@);
            doc.set_attribute(handle, attribute);
            retained.push(attribute.clone());
            proof {
                assert(attribute_models(retained@) =~= before.push(attribute@));
            }
        }
        i += 1;
    }
    proof {
        assert(wish.take(i as int) =~= wish);
    }
}

/// Sets on the node `handle`, which was just created, every declared
/// attribute.
pub fn set_all_attributes(doc: &mut WebDocument, handle: u64, declared: &Vec<KeyValue>) -> (retained:
    Vec<KeyValue>)
    ensures
        attribute_models(retained@) == attribute_models(declared@),
        final(doc)@ == set_all(handle as int, attribute_models(declared@), old(doc)@),
{
    let ghost wish = attribute_models(declared@);
    let ghost start = doc@;
    let mut retained: Vec<KeyValue> = Vec::new();
    let mut i: usize = 0;
    while i < declared.len()
        invariant
            i <= declared@.len(),
            wish == attribute_models(declared@),
            attribute_models(retained@) =~= wish.take(i as int),
            doc@.ops =~= start.ops + wish.take(i as int).map_values(
                set_attribute_op(handle as int),
            ),
            doc@.next == start.next,
        decreases declared@.len() - i,
    {
        let attribute = &declared[i];
        proof {
            lemma_take_next(wish, i as int);
        }
        doc.set_attribute(handle, attribute);
        retained.push(attribute.clone());
        i += 1;
    }
    proof {
        assert(wish.take(i as int) =~= wish);
    }
    retained
}

/// Brings the listeners of the node `handle`, whose key path is `keys`, up to
/// date: first what is stale is detached, then what is missing is attached.
/// Afterwards the attached listeners serve exactly the declared ones,
/// whatever was attached before.
pub fn update_listeners(
    doc: &mut WebDocument,
    handle: u64,
    keys: &Keys,
    attached: &mut Vec<AttachedListener>,
    declared: &Vec<Listener>,
)
    requires
        old(doc)@.next + declared@.len() <= u64::MAX,
    ensures
        (attached_models(final(attached)@), final(doc)@) == diff_listeners(
            handle as int,
            keys@,
            attached_models(old(attached)@),
            listener_models(declared@),
            old(doc)@,
        ),
        forall|l: ListenerModel|
            #[trigger] serves(attached_models(final(attached)@), l) == listener_models(
                declared@,
            ).contains(l),
        old(doc)@.next <= final(doc)@.next <= old(doc)@.next + declared@.len(),
{
    let ghost after = diff_listeners(
        handle as int,
        keys@,
        attached_models(attached@),
        listener_models(declared@),
        doc@,
    ).0;
    proof {
        law_listeners_converge(
            handle as int,
            keys@,
            attached_models(attached@),
            listener_models(declared@),
            doc@,
        );
    }
    remove_stale_listeners(doc, handle, attached, declared);
    attach_new_listeners(doc, handle, keys, attached, declared);
    proof {
        assert(attached_models(attached@) == after);
        assert forall|l: ListenerModel| #[trigger]
            serves(attached_models(attached@), l) == listener_models(declared@).contains(l) by {
            assert(serves(after, l) == listener_models(declared@).contains(l));
        }
    }
}

/// Brings the attributes of the node `handle` up to date: first what is
/// stale is removed, then what is missing is set. Afterwards the retained
/// attributes are, as a set, exactly the declared ones, whatever was
/// retained before.
pub fn update_attributes(
    doc: &mut WebDocument,
    handle: u64,
    retained: &mut Vec<KeyValue>,
    declared: &Vec<KeyValue>,
)
    ensures
        (attribute_models(final(retained)@), final(doc)@) == diff_attributes(
            handle as int,
            attribute_models(old(retained)@),
            attribute_models(declared@),
            old(doc)@,
        ),
        attribute_models(final(retained)@).to_set() == attribute_models(declared@).to_set(),
        final(doc)@.next == old(doc)@.next,
{
    proof {
        law_attributes_converge(
            handle as int,
            attribute_models(retained@),
            attribute_models(declared@),
            doc@,
        );
    }
    remove_stale_attributes(doc, handle, retained, declared);
    set_new_attributes(doc, handle, retained, declared);
}

/// Removes from the document every entry of `level` at or after `cursor`,
/// the last one first, and forgets it.
pub fn remove_unused(doc: &mut WebDocument, level: &mut Vec<VDomNode>, cursor: usize)
    requires
        cursor <= old(level)@.len(),
    ensures
        (Pass { level: level_models(final(level)@), doc: final(doc)@ }) == remove_trailing(
            level_models(old(level)@),
            cursor as int,
            old(doc)@,
        ),
        level_models(final(level)@) == level_models(old(level)@).take(cursor as int),
        final(doc)@.ops == old(doc)@.ops + trailing_removals(
            level_models(old(level)@),
            cursor as int,
        ),
        final(doc)@.next == old(doc)@.next,
{
    let ghost orig = level_models(level@);
    let ghost start = doc@;
    while cursor < level.len()
        invariant
            cursor <= level@.len() <= orig.len(),
            level_models(level@) =~= orig.take(level@.len() as int),
            doc@.ops =~= start.ops + trailing_removals(orig, level@.len() as int),
            doc@.next == start.next,
        decreases level@.len(),
    {
        let ghost before = level_models(level@);
        let unused = level.pop().unwrap();
        doc.remove_self(unused.handle, unused.handles());
        proof {
            assert(unused@ == before.last());
            assert(trailing_removals(orig, level@.len() as int) =~= trailing_removals(
                orig,
                (level@.len() + 1) as int,
            ).push(remove_op(unused@)));
        }
    }
    proof {
        assert(level@.len() == cursor);
    }
}

/// The handles that a prefix of the declared nodes can need are among those
/// that all of them can need.
pub proof fn lemma_handles_prefix(nodes: Seq<NodeModel>, n: int)
    requires
        0 <= n <= nodes.len(),
    ensures
        handles_needed_all(nodes.take(n)) <= handles_needed_all(nodes),
    decreases nodes.len(),
{
    if n == nodes.len() {
        assert(nodes.take(n) =~= nodes);
    } else {
        lemma_handles_prefix(nodes.drop_last(), n);
        assert(nodes.drop_last().take(n) =~= nodes.take(n));
    }
}

/// Brings the materialized node `vnode` up to date with the declared node
/// `node` that it matches; `path` is the key path of both.
pub fn update_node(doc: &mut WebDocument, path: &Keys, vnode: &mut VDomNode, node: &DomNode)
    requires
        all_keys_fit(node@.children, path@.len()),
        old(doc)@.next + handles_needed(node@) <= u64::MAX,
    ensures
        (final(vnode)@, final(doc)@) == pass::update_node(old(vnode)@, path@, node@, old(doc)@),
        old(doc)@.next <= final(doc)@.next <= old(doc)@.next + handles_needed(node@),
    decreases node, 0int,
{
    let handle = vnode.handle;
    proof {
        node.lemma_view_children();
        vnode.lemma_view_children();
    }
    update_listeners(doc, handle, path, &mut vnode.listeners, &node.listeners);
    update_attributes(doc, handle, &mut vnode.attributes, &node.attributes);
    reconcile_level(doc, path, handle, &mut vnode.children, &node.children);
    proof {
        vnode.lemma_view_children();
    }
}

/// Materializes the declared node `node`, whose key path is `path`, with all
/// below it, and returns the new materialized node. The caller puts it in
/// its place.
pub fn create_node(doc: &mut WebDocument, path: &Keys, node: &DomNode) -> (vnode: VDomNode)
    requires
        all_keys_fit(node@.children, path@.len()),
        old(doc)@.next + handles_needed(node@) <= u64::MAX,
    ensures
        (vnode@, final(doc)@) == pass::create_node(path@, node@, old(doc)@),
        old(doc)@.next < final(doc)@.next <= old(doc)@.next + handles_needed(node@),
    decreases node, 0int,
{
    proof {
        node.lemma_view_children();
    }
    let handle = doc.create(&node.value);
    let listeners = attach_all_listeners(doc, handle, path, &node.listeners);
    let attributes = set_all_attributes(doc, handle, &node.attributes);
    let mut children: Vec<VDomNode> = Vec::new();
    assert(level_models(children@) =~= Seq::empty());
    reconcile_level(doc, path, handle, &mut children, &node.children);
    let vnode = VDomNode {
        value: node.value.clone(),
        keys: *path,
        handle,
        attributes,
        listeners,
        children,
    };
    proof {
        vnode.lemma_view_children();
    }
    vnode
}

/// One step of a pass: brings the declared node `node` to place `cursor` of
/// `level`, the children of the host element `parent`, whose key path is
/// `keys`. Entries before `cursor` are out of play: earlier steps put them
/// there.
pub fn add_node(
    doc: &mut WebDocument,
    keys: &Keys,
    parent: u64,
    level: &mut Vec<VDomNode>,
    cursor: usize,
    node: &DomNode,
)
    requires
        cursor <= old(level)@.len(),
        keys_fit(node@, keys@.len()),
        old(doc)@.next + handles_needed(node@) <= u64::MAX,
    ensures
        (Pass { level: level_models(final(level)@), doc: final(doc)@ }) == pass::add_node(
            Pass { level: level_models(old(level)@), doc: old(doc)@ },
            keys@,
            parent as int,
            cursor as int,
            node@,
        ),
        final(level)@.len() > cursor,
        old(doc)@.next <= final(doc)@.next <= old(doc)@.next + handles_needed(node@),
    decreases node, 1int,
{
    let ghost before = level_models(level@);
    let path = keys.child(node.key);
    match find_match(level, cursor, &path, &node.value) {
        Some(found) => {
            update_node(doc, &path, &mut level[found], node);
            let ghost updated = level_models(level@);
            proof {
                assert(updated =~= before.update(found as int, updated[found as int]));
                assert(before.remove(found as int).insert(found as int, updated[found as int])
                    =~= updated);
            }
            if found != cursor {
                doc.move_child(parent, found, cursor);
                let moved = level.remove(found);
                level.insert(cursor, moved);
                proof {
                    assert(level_models(level@) =~= before.remove(found as int).insert(
                        cursor as int,
                        updated[found as int],
                    ));
                }
            }
        },
        None => {
            let vnode = create_node(doc, &path, node);
            doc.insert(parent, cursor, vnode.handle);
            let ghost created = vnode@;
            level.insert(cursor, vnode);
            proof {
                assert(level_models(level@) =~= before.insert(cursor as int, created));
            }
        },
    }
}

/// A whole pass on one level: brings every declared node of `nodes` to its
/// place among the children of the host element `parent`, whose key path is
/// `keys`, then removes what is left of `level` behind them. Afterwards the
/// level shows the declared nodes, whatever it held before.
pub fn reconcile_level(
    doc: &mut WebDocument,
    keys: &Keys,
    parent: u64,
    level: &mut Vec<VDomNode>,
    nodes: &Vec<DomNode>,
)
    requires
        all_keys_fit(node_models(nodes@), keys@.len()),
        old(doc)@.next + handles_needed_all(node_models(nodes@)) <= u64::MAX,
    ensures
        (Pass { level: level_models(final(level)@), doc: final(doc)@ }) == pass::reconcile(
            Pass { level: level_models(old(level)@), doc: old(doc)@ },
            keys@,
            parent as int,
            node_models(nodes@),
        ),
        old(doc)@.next <= final(doc)@.next <= old(doc)@.next + handles_needed_all(
            node_models(nodes@),
        ),
        level_renders(level_models(final(level)@), keys@, node_models(nodes@)),
    decreases nodes, 0int,
{
    let ghost start = Pass { level: level_models(level@), doc: doc@ };
    proof {
        law_reconcile_renders(start, keys@, parent as int, node_models(nodes@));
    }
    let ghost wish = node_models(nodes@);
    let mut cursor: usize = 0;
    proof {
        assert(wish.take(0) =~= Seq::empty());
    }
    while cursor < nodes.len()
        invariant
            cursor <= nodes@.len(),
            cursor <= level@.len(),
            wish == node_models(nodes@),
            (Pass { level: level_models(level@), doc: doc@ }) == add_all(
                start,
                keys@,
                parent as int,
                wish.take(cursor as int),
            ),
            start.doc.next <= doc@.next <= start.doc.next + handles_needed_all(
                wish.take(cursor as int),
            ),
            all_keys_fit(wish, keys@.len()),
            start.doc.next + handles_needed_all(wish) <= u64::MAX,
        decreases nodes@.len() - cursor,
    {
        proof {
            lemma_take_next(wish, cursor as int);
            lemma_handles_prefix(wish, cursor + 1);
            assert(keys_fit(wish[cursor as int], keys@.len()));
        }
        add_node(doc, keys, parent, level, cursor, &nodes[cursor]);
        cursor += 1;
    }
    proof {
        assert(wish.take(cursor as int) =~= wish);
    }
    remove_unused(doc, level, cursor);
}

} // verus!
